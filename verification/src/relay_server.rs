//! The renet relay: clients authenticate
//! with an application id, create rooms named after themselves, join rooms
//! by name and exchange game data through the relay. The server's decisions
//! are made here; the renet connection that carries the messages is driven
//! by the program around it.
use vstd::prelude::*;
use std::collections::HashMap;
use crate::packet_type::{renet_decodable, renet_decode, PacketType, PacketTypeErrorView, PacketTypeView};
use crate::peers::PeerTableView;
use crate::renet_connection::{Packet, RenetChannel, RenetEvent};
use crate::room::{Room, RoomView};
use crate::text::{decimal_nat, push_decimal_u64, str_eq};

verus! {

broadcast use vstd::std_specs::hash::group_hash_axioms;

struct ClientSession {
    app_id: String,
    renet_id: String,
}

struct App {
    id: String,
    rooms: Vec<Room>,
}

/// An application as the server sees it: its id and its rooms.
pub struct RenetAppView {
    pub id: Seq<char>,
    pub rooms: Seq<RoomView>,
}

/// A message the server sends.
pub struct Outgoing {
    pub target: u64,
    pub packet: PacketType,
    pub channel: RenetChannel,
}

pub struct OutgoingView {
    pub target: u64,
    pub packet: PacketTypeView,
    pub channel: RenetChannel,
}

impl View for Outgoing {
    type V = OutgoingView;

    open spec fn view(&self) -> OutgoingView {
        OutgoingView { target: self.target, packet: self.packet@, channel: self.channel }
    }
}

pub open spec fn outs_view(v: Seq<Outgoing>) -> Seq<OutgoingView> {
    v.map_values(|o: Outgoing| o@)
}

pub open spec fn reliable(target: u64, packet: PacketTypeView) -> OutgoingView {
    OutgoingView { target, packet, channel: RenetChannel::ReliableOrdered }
}

/// The renet relay's state.
pub struct RelayServer {
    app_sessions: Vec<App>,
    client_sessions: HashMap<u64, ClientSession>,
    app_whitelist: Vec<String>,
}

pub struct RelayServerView {
    /// The applications, in order of first authentication.
    pub apps: Seq<RenetAppView>,
    /// Each authenticated client's application id and its own id as text.
    pub sessions: Map<u64, (Seq<char>, Seq<char>)>,
    /// The application ids allowed in; empty allows every id.
    pub whitelist: Seq<Seq<char>>,
}

spec fn app_view(a: App) -> RenetAppView {
    RenetAppView { id: a.id@, rooms: a.rooms@.map_values(|r: Room| r@) }
}

impl View for RelayServer {
    type V = RelayServerView;

    closed spec fn view(&self) -> RelayServerView {
        RelayServerView {
            apps: self.app_sessions@.map_values(|a: App| app_view(a)),
            sessions: self.client_sessions@.map_values(|s: ClientSession| (s.app_id@, s.renet_id@)),
            whitelist: self.app_whitelist@.map_values(|w: String| w@),
        }
    }
}

// ---------------------------------------------------------------------
// Model of the server
// ---------------------------------------------------------------------

pub open spec fn has_renet_app(apps: Seq<RenetAppView>, id: Seq<char>) -> bool {
    exists|i: int| 0 <= i < apps.len() && (#[trigger] apps[i]).id == id
}

pub open spec fn renet_app_index(apps: Seq<RenetAppView>, id: Seq<char>) -> int {
    choose|i: int| 0 <= i < apps.len() && (#[trigger] apps[i]).id == id
}

pub open spec fn has_renet_room(rooms: Seq<RoomView>, id: Seq<char>) -> bool {
    exists|i: int| 0 <= i < rooms.len() && (#[trigger] rooms[i]).id == id
}

pub open spec fn renet_room_index(rooms: Seq<RoomView>, id: Seq<char>) -> int {
    choose|i: int| 0 <= i < rooms.len() && (#[trigger] rooms[i]).id == id
}

/// Whether `j` is the first room of `rooms` that has `c` as a member.
pub open spec fn is_first_room_of(rooms: Seq<RoomView>, c: u64, j: int) -> bool {
    &&& 0 <= j < rooms.len()
    &&& rooms[j].peers.clients.contains_key(c)
    &&& forall|k: int| 0 <= k < j ==> !(#[trigger] rooms[k]).peers.clients.contains_key(c)
}

pub open spec fn in_some_room(rooms: Seq<RoomView>, c: u64) -> bool {
    exists|j: int| is_first_room_of(rooms, c, j)
}

pub open spec fn first_room_of(rooms: Seq<RoomView>, c: u64) -> int {
    choose|j: int| is_first_room_of(rooms, c, j)
}

/// A room after `c` joined it.
pub open spec fn with_peer(r: RoomView, c: u64) -> RoomView {
    RoomView {
        peers: PeerTableView {
            clients: r.peers.clients.insert(c, r.peers.next),
            godots: r.peers.godots.insert(r.peers.next, c),
            next: (r.peers.next + 1) as i32,
        },
        ..r
    }
}

/// A room after `c` left it.
pub open spec fn without_peer(r: RoomView, c: u64) -> RoomView {
    RoomView {
        peers: PeerTableView {
            clients: r.peers.clients.remove(c),
            godots: if r.peers.clients.contains_key(c) {
                r.peers.godots.remove(r.peers.clients[c])
            } else {
                r.peers.godots
            },
            next: r.peers.next,
        },
        ..r
    }
}

/// The rooms after `room` is stored under its id.
pub open spec fn store_room(rooms: Seq<RoomView>, room: RoomView) -> Seq<RoomView> {
    if has_renet_room(rooms, room.id) {
        rooms.update(renet_room_index(rooms, room.id), room)
    } else {
        rooms.push(room)
    }
}

pub open spec fn with_rooms(v: RelayServerView, i: int, rooms: Seq<RoomView>) -> RelayServerView {
    RelayServerView { apps: v.apps.update(i, RenetAppView { id: v.apps[i].id, rooms }), ..v }
}

/// Whether `app_id` may authenticate.
pub open spec fn whitelisted(whitelist: Seq<Seq<char>>, app_id: Seq<char>) -> bool {
    whitelist.len() == 0 || whitelist.contains(app_id)
}

pub open spec fn authenticate_spec(v: RelayServerView, client: u64, app_id: Seq<char>) -> (
    RelayServerView,
    Seq<OutgoingView>,
) {
    if !whitelisted(v.whitelist, app_id) {
        (v, seq![reliable(client, PacketTypeView::ForceDisconnect)])
    } else {
        let apps = if has_renet_app(v.apps, app_id) {
            v.apps
        } else {
            v.apps.push(RenetAppView { id: app_id, rooms: Seq::empty() })
        };
        (
            RelayServerView {
                apps,
                sessions: v.sessions.insert(client, (app_id, decimal_nat(client as nat))),
                ..v
            },
            seq![reliable(client, PacketTypeView::ClientAuthenticated)],
        )
    }
}

/// The session's application, when the client authenticated and the
/// application is still known.
pub open spec fn session_app(v: RelayServerView, client: u64) -> Option<int> {
    if v.sessions.contains_key(client) && has_renet_app(v.apps, v.sessions[client].0) {
        Some(renet_app_index(v.apps, v.sessions[client].0))
    } else {
        None
    }
}

pub open spec fn create_room_spec(v: RelayServerView, client: u64) -> (RelayServerView, Seq<OutgoingView>) {
    match session_app(v, client) {
        None => (v, Seq::empty()),
        Some(i) => {
            let name = decimal_nat(client as nat);
            let fresh = RoomView {
                id: name,
                host: client,
                peers: PeerTableView { clients: Map::empty(), godots: Map::empty(), next: 1 },
            };
            (
                with_rooms(v, i, store_room(v.apps[i].rooms, with_peer(fresh, client))),
                seq![reliable(client, PacketTypeView::ConnectedToRoom(name, 1))],
            )
        },
    }
}

pub open spec fn join_room_spec(v: RelayServerView, client: u64, room_id: Seq<char>) -> (
    RelayServerView,
    Seq<OutgoingView>,
) {
    match session_app(v, client) {
        None => (v, Seq::empty()),
        Some(i) => {
            let rooms = v.apps[i].rooms;
            if has_renet_room(rooms, room_id) {
                let j = renet_room_index(rooms, room_id);
                let pid = rooms[j].peers.next;
                (
                    with_rooms(v, i, rooms.update(j, with_peer(rooms[j], client))),
                    seq![
                        reliable(client, PacketTypeView::ConnectedToRoom(room_id, pid)),
                        reliable(rooms[j].host, PacketTypeView::PeerJoinedRoom(pid)),
                    ],
                )
            } else {
                (v, Seq::empty())
            }
        },
    }
}

pub open spec fn game_data_spec(
    v: RelayServerView,
    client: u64,
    target: i32,
    data: Seq<u8>,
    channel: RenetChannel,
) -> Seq<OutgoingView> {
    match session_app(v, client) {
        None => Seq::empty(),
        Some(i) => {
            let rooms = v.apps[i].rooms;
            if in_some_room(rooms, client) {
                let r = rooms[first_room_of(rooms, client)];
                if r.peers.godots.contains_key(target) {
                    seq![
                        OutgoingView {
                            target: r.peers.godots[target],
                            packet: PacketTypeView::GameData(r.peers.clients[client], data),
                            channel,
                        },
                    ]
                } else {
                    Seq::empty()
                }
            } else {
                Seq::empty()
            }
        },
    }
}

/// The state after `client` disconnected (its session is kept).
pub open spec fn disconnect_state(v: RelayServerView, client: u64) -> RelayServerView {
    match session_app(v, client) {
        None => v,
        Some(i) => {
            let rooms = v.apps[i].rooms;
            if in_some_room(rooms, client) {
                let j = first_room_of(rooms, client);
                let r = rooms[j];
                if r.host == client {
                    with_rooms(v, i, rooms.remove(j))
                } else {
                    let left = without_peer(r, client);
                    if left.peers.clients.is_empty() && left.peers.godots.is_empty() {
                        with_rooms(v, i, rooms.remove(j))
                    } else {
                        with_rooms(v, i, rooms.update(j, left))
                    }
                }
            } else {
                v
            }
        },
    }
}

/// What is sent when `client` disconnects: a host's room members are told
/// to disconnect (in no particular order); a member's host is told that
/// the member left.
pub open spec fn disconnect_messages_ok(v: RelayServerView, client: u64, outs: Seq<OutgoingView>) -> bool {
    match session_app(v, client) {
        None => outs.len() == 0,
        Some(i) => {
            let rooms = v.apps[i].rooms;
            if in_some_room(rooms, client) {
                let r = rooms[first_room_of(rooms, client)];
                if r.host == client {
                    &&& forall|k: int| 0 <= k < outs.len() ==> (#[trigger] outs[k]).packet
                        == PacketTypeView::ForceDisconnect && outs[k].channel
                        == RenetChannel::ReliableOrdered
                    &&& outs.map_values(|o: OutgoingView| o.target).no_duplicates()
                    &&& outs.map_values(|o: OutgoingView| o.target).to_set() == r.peers.clients.dom().remove(
                        client,
                    )
                } else {
                    outs == seq![reliable(r.host, PacketTypeView::PeerLeftRoom(r.peers.clients[client]))]
                }
            } else {
                outs.len() == 0
            }
        },
    }
}

/// What the server does with a message `data` from `client`.
pub open spec fn packet_spec(v: RelayServerView, client: u64, data: Seq<u8>, channel: RenetChannel) -> (
    RelayServerView,
    Seq<OutgoingView>,
) {
    match renet_decode(data) {
        Err(_) => (v, Seq::empty()),
        Ok(p) => match p {
            PacketTypeView::CreateRoom => create_room_spec(v, client),
            PacketTypeView::JoinRoom(room_id) => join_room_spec(v, client, room_id),
            PacketTypeView::GameData(target, payload) => (
                v,
                game_data_spec(v, client, target, payload, channel),
            ),
            PacketTypeView::Authenticate(app_id) => authenticate_spec(v, client, app_id),
            _ => (v, Seq::empty()),
        },
    }
}

/// Whether a join of `room_id` by `client` can be handled: the room it
/// names, if any, can still hand out a peer identifier.
pub open spec fn join_handled(v: RelayServerView, client: u64, room_id: Seq<char>) -> bool {
    match session_app(v, client) {
        None => true,
        Some(i) => {
            let rooms = v.apps[i].rooms;
            has_renet_room(rooms, room_id) ==> rooms[renet_room_index(rooms, room_id)].peers.next
                < i32::MAX
        },
    }
}

/// Whether the message `data` from `client` can be handled: it can be
/// decoded (see [`renet_decodable`]) and, if it is a join, the room can
/// still hand out a peer identifier.
pub open spec fn packet_handled(v: RelayServerView, client: u64, data: Seq<u8>) -> bool {
    &&& renet_decodable(data)
    &&& match renet_decode(data) {
        Ok(PacketTypeView::JoinRoom(room_id)) => join_handled(v, client, room_id),
        _ => true,
    }
}

/// The server's invariant: application ids are distinct, and so are the
/// ids of the rooms of each application, whose peer tables are sound.
pub open spec fn relay_server_wf(v: RelayServerView) -> bool {
    &&& forall|i: int, j: int|
        0 <= i < v.apps.len() && 0 <= j < v.apps.len() && i != j ==> (#[trigger] v.apps[i]).id != (
        #[trigger] v.apps[j]).id
    &&& forall|i: int| 0 <= i < v.apps.len() ==> renet_rooms_wf(#[trigger] v.apps[i].rooms)
}

pub open spec fn renet_rooms_wf(rooms: Seq<RoomView>) -> bool {
    &&& forall|a: int, b: int|
        0 <= a < rooms.len() && 0 <= b < rooms.len() && a != b ==> (#[trigger] rooms[a]).id != (
        #[trigger] rooms[b]).id
    &&& forall|a: int| 0 <= a < rooms.len() ==> crate::peers::peer_table_wf((#[trigger] rooms[a]).peers)
}

// ---------------------------------------------------------------------
// Applications
// ---------------------------------------------------------------------

impl App {
    spec fn wf(&self) -> bool {
        renet_rooms_wf(app_view(*self).rooms)
    }

    fn new(id: String) -> (a: App)
        ensures
            app_view(a) == (RenetAppView { id: id@, rooms: Seq::empty() }),
    {
        let a = Self { id, rooms: Vec::new() };
        proof {
            assert(app_view(a).rooms =~= Seq::<RoomView>::empty());
        }
        a
    }

    fn position(&self, room_id: &str) -> (r: Option<usize>)
        ensures
            match r {
                Some(i) => i < self.rooms@.len() && app_view(*self).rooms[i as int].id == room_id@,
                None => !has_renet_room(app_view(*self).rooms, room_id@),
            },
    {
        let mut i: usize = 0;
        while i < self.rooms.len()
            invariant
                i <= self.rooms@.len(),
                forall|j: int| 0 <= j < i ==> (#[trigger] self.rooms@[j])@.id != room_id@,
            decreases self.rooms.len() - i,
        {
            if str_eq(self.rooms[i].id_str(), room_id) {
                return Some(i);
            }
            i += 1;
        }
        proof {
            let rv = app_view(*self).rooms;
            assert forall|j: int| 0 <= j < rv.len() implies (#[trigger] rv[j]).id != room_id@ by {
                assert(rv[j] == self.rooms@[j]@);
            }
        }
        None
    }

    /// Stores `room` under its id, replacing any room with that id.
    fn add_room(&mut self, room: Room)
        requires
            old(self).wf(),
            room.wf(),
        ensures
            final(self).wf(),
            app_view(*final(self)) == (RenetAppView {
                id: app_view(*old(self)).id,
                rooms: store_room(app_view(*old(self)).rooms, room@),
            }),
    {
        let ghost rv = app_view(*old(self)).rooms;
        match self.position(room.id_str()) {
            Some(i) => {
                proof {
                    assert(renet_room_index(rv, room@.id) == i);
                }
                self.rooms.set(i, room);
                proof {
                    assert(app_view(*self).rooms =~= rv.update(i as int, room@));
                }
            },
            None => {
                self.rooms.push(room);
                proof {
                    assert(app_view(*self).rooms =~= rv.push(room@));
                }
            },
        }
    }

    /// Removes the room at `j`.
    fn remove_room_at(&mut self, j: usize) -> (r: Room)
        requires
            old(self).wf(),
            j < old(self).rooms@.len(),
        ensures
            final(self).wf(),
            r@ == app_view(*old(self)).rooms[j as int],
            app_view(*final(self)) == (RenetAppView {
                id: app_view(*old(self)).id,
                rooms: app_view(*old(self)).rooms.remove(j as int),
            }),
    {
        let ghost rv = app_view(*old(self)).rooms;
        let r = self.rooms.remove(j);
        proof {
            assert(app_view(*self).rooms =~= rv.remove(j as int));
        }
        r
    }
}

// ---------------------------------------------------------------------
// The server
// ---------------------------------------------------------------------

impl RelayServer {
    pub open spec fn wf(&self) -> bool {
        relay_server_wf(self@)
    }

    /// A server with no application, no session, and the given application
    /// whitelist (empty allows every application).
    pub fn new(app_whitelist: Vec<String>) -> (s: Self)
        ensures
            s.wf(),
            s@.apps == Seq::<RenetAppView>::empty(),
            s@.sessions == Map::<u64, (Seq<char>, Seq<char>)>::empty(),
            s@.whitelist == app_whitelist@.map_values(|w: String| w@),
    {
        let s = Self { app_sessions: Vec::new(), client_sessions: HashMap::new(), app_whitelist };
        proof {
            assert(s@.apps =~= Seq::<RenetAppView>::empty());
            assert(s@.sessions =~= Map::<u64, (Seq<char>, Seq<char>)>::empty());
        }
        s
    }

    fn find_app(&self, app_id: &str) -> (r: Option<usize>)
        ensures
            match r {
                Some(i) => i < self@.apps.len() && self@.apps[i as int].id == app_id@,
                None => !has_renet_app(self@.apps, app_id@),
            },
    {
        let mut i: usize = 0;
        while i < self.app_sessions.len()
            invariant
                i <= self.app_sessions@.len(),
                forall|j: int| 0 <= j < i ==> (#[trigger] self@.apps[j]).id != app_id@,
            decreases self.app_sessions.len() - i,
        {
            if str_eq(self.app_sessions[i].id.as_str(), app_id) {
                return Some(i);
            }
            i += 1;
        }
        None
    }

    fn session_app_index(&self, client_id: u64) -> (r: Option<usize>)
        requires
            self.wf(),
        ensures
            match r {
                Some(i) => session_app(self@, client_id) == Some(i as int) && i < self@.apps.len(),
                None => session_app(self@, client_id) is None,
            },
    {
        match self.client_sessions.get(&client_id) {
            None => None,
            Some(session) => {
                let r = self.find_app(session.app_id.as_str());
                proof {
                    if let Some(i) = r {
                        let k = renet_app_index(self@.apps, self@.sessions[client_id].0);
                        assert(k == i);
                    }
                }
                r
            },
        }
    }

    fn is_whitelisted(&self, app_id: &str) -> (r: bool)
        ensures
            r == whitelisted(self@.whitelist, app_id@),
    {
        if self.app_whitelist.len() == 0 {
            return true;
        }
        let mut i: usize = 0;
        while i < self.app_whitelist.len()
            invariant
                i <= self.app_whitelist@.len(),
                forall|j: int| 0 <= j < i ==> (#[trigger] self@.whitelist[j]) != app_id@,
            decreases self.app_whitelist.len() - i,
        {
            if str_eq(self.app_whitelist[i].as_str(), app_id) {
                proof {
                    assert(self@.whitelist[i as int] == app_id@);
                }
                return true;
            }
            i += 1;
        }
        false
    }

    fn handle_authenticate(&mut self, client_id: u64, app_id: String) -> (outs: Vec<Outgoing>)
        requires
            old(self).wf(),
        ensures
            final(self).wf(),
            (final(self)@, outs_view(outs@)) == authenticate_spec(old(self)@, client_id, app_id@),
    {
        let mut outs: Vec<Outgoing> = Vec::new();
        if !self.is_whitelisted(app_id.as_str()) {
            outs.push(
                Outgoing {
                    target: client_id,
                    packet: PacketType::ForceDisconnect(),
                    channel: RenetChannel::ReliableOrdered,
                },
            );
            proof {
                assert(outs_view(outs@) =~= seq![reliable(client_id, PacketTypeView::ForceDisconnect)]);
            }
            return outs;
        }
        let ghost v0 = self@;
        if self.find_app(app_id.as_str()).is_none() {
            self.app_sessions.push(App::new(app_id.clone()));
            proof {
                assert(self@.apps =~= v0.apps.push(RenetAppView { id: app_id@, rooms: Seq::empty() }));
            }
        }
        let mut renet_id = String::new();
        push_decimal_u64(&mut renet_id, client_id);
        let ghost v1 = self@;
        self.client_sessions.insert(client_id, ClientSession { app_id: app_id.clone(), renet_id });
        proof {
            assert(self@.sessions =~= v0.sessions.insert(client_id, (app_id@, decimal_nat(client_id as nat))));
            assert(self@.apps == v1.apps);
        }
        outs.push(
            Outgoing {
                target: client_id,
                packet: PacketType::ClientAuthenticated(),
                channel: RenetChannel::ReliableOrdered,
            },
        );
        proof {
            assert(outs_view(outs@) =~= seq![reliable(client_id, PacketTypeView::ClientAuthenticated)]);
        }
        outs
    }

    fn handle_create_room(&mut self, client_id: u64) -> (outs: Vec<Outgoing>)
        requires
            old(self).wf(),
        ensures
            final(self).wf(),
            (final(self)@, outs_view(outs@)) == create_room_spec(old(self)@, client_id),
    {
        let mut outs: Vec<Outgoing> = Vec::new();
        let i = match self.session_app_index(client_id) {
            None => {
                proof {
                    assert(outs_view(outs@) =~= Seq::<OutgoingView>::empty());
                }
                return outs;
            },
            Some(i) => i,
        };
        let ghost v0 = self@;
        let mut name = String::new();
        push_decimal_u64(&mut name, client_id);
        let packet_name = name.clone();
        let mut room = Room::new(name, client_id);
        let pid = room.add_peer(client_id);
        proof {
            assert(room@ == with_peer(
                RoomView {
                    id: decimal_nat(client_id as nat),
                    host: client_id,
                    peers: PeerTableView { clients: Map::empty(), godots: Map::empty(), next: 1 },
                },
                client_id,
            ));
            assert(self.app_sessions@[i as int].wf());
        }
        self.app_sessions[i].add_room(room);
        outs.push(
            Outgoing {
                target: client_id,
                packet: PacketType::ConnectedToRoom(packet_name, pid),
                channel: RenetChannel::ReliableOrdered,
            },
        );
        proof {
            let spec = create_room_spec(v0, client_id);
            assert(self@.apps =~= spec.0.apps);
            assert(outs_view(outs@) =~= spec.1);
            assert forall|a: int| 0 <= a < self@.apps.len() implies renet_rooms_wf(
                #[trigger] self@.apps[a].rooms,
            ) by {
                if a != i {
                    assert(self@.apps[a] == v0.apps[a]);
                }
            }
        }
        outs
    }

    fn handle_join_room(&mut self, client_id: u64, room_id: String) -> (outs: Vec<Outgoing>)
        requires
            old(self).wf(),
            join_handled(old(self)@, client_id, room_id@),
        ensures
            final(self).wf(),
            (final(self)@, outs_view(outs@)) == join_room_spec(old(self)@, client_id, room_id@),
    {
        let mut outs: Vec<Outgoing> = Vec::new();
        let i = match self.session_app_index(client_id) {
            None => {
                proof {
                    assert(outs_view(outs@) =~= Seq::<OutgoingView>::empty());
                }
                return outs;
            },
            Some(i) => i,
        };
        let ghost v0 = self@;
        let j = match self.app_sessions[i].position(room_id.as_str()) {
            None => {
                proof {
                    assert(outs_view(outs@) =~= Seq::<OutgoingView>::empty());
                }
                return outs;
            },
            Some(j) => j,
        };
        proof {
            let rv = v0.apps[i as int].rooms;
            assert(renet_room_index(rv, room_id@) == j);
            assert(rv[j as int].peers.next < i32::MAX);
        }
        let ghost a0 = self.app_sessions@[i as int];
        let pid = self.app_sessions[i].rooms[j].add_peer(client_id);
        let host = self.app_sessions[i].rooms[j].get_host();
        outs.push(
            Outgoing {
                target: client_id,
                packet: PacketType::ConnectedToRoom(room_id, pid),
                channel: RenetChannel::ReliableOrdered,
            },
        );
        outs.push(
            Outgoing {
                target: host,
                packet: PacketType::PeerJoinedRoom(pid),
                channel: RenetChannel::ReliableOrdered,
            },
        );
        proof {
            let spec = join_room_spec(v0, client_id, room_id@);
            let rv = v0.apps[i as int].rooms;
            assert(app_view(self.app_sessions@[i as int]).rooms =~= rv.update(
                j as int,
                with_peer(rv[j as int], client_id),
            ));
            assert(self@.apps =~= spec.0.apps);
            assert(outs_view(outs@) =~= spec.1);
            assert forall|a: int| 0 <= a < self@.apps.len() implies renet_rooms_wf(
                #[trigger] self@.apps[a].rooms,
            ) by {
                if a != i {
                    assert(self@.apps[a] == v0.apps[a]);
                } else {
                    let nr = self@.apps[a].rooms;
                    assert forall|x: int| 0 <= x < nr.len() implies crate::peers::peer_table_wf(
                        (#[trigger] nr[x]).peers,
                    ) by {
                        if x != j {
                            assert(nr[x] == rv[x]);
                        }
                    }
                }
            }
        }
        outs
    }

    fn first_room_with(&self, i: usize, client_id: u64) -> (r: Option<usize>)
        requires
            i < self@.apps.len(),
        ensures
            match r {
                Some(j) => is_first_room_of(self@.apps[i as int].rooms, client_id, j as int),
                None => !in_some_room(self@.apps[i as int].rooms, client_id),
            },
    {
        let app = &self.app_sessions[i];
        let ghost rv = self@.apps[i as int].rooms;
        let mut j: usize = 0;
        while j < app.rooms.len()
            invariant
                j <= app.rooms@.len(),
                i < self@.apps.len(),
                rv == self@.apps[i as int].rooms,
                rv == app_view(*app).rooms,
                forall|k: int| 0 <= k < j ==> !(#[trigger] rv[k]).peers.clients.contains_key(client_id),
            decreases app.rooms.len() - j,
        {
            if app.rooms[j].contains_renet_id(client_id) {
                proof {
                    assert(rv[j as int] == app.rooms@[j as int]@);
                }
                return Some(j);
            }
            proof {
                assert(rv[j as int] == app.rooms@[j as int]@);
            }
            j += 1;
        }
        proof {
            assert forall|x: int| !is_first_room_of(rv, client_id, x) by {}
        }
        None
    }

    fn handle_game_data(&self, client_id: u64, target_id: i32, payload: Vec<u8>, channel: RenetChannel) -> (outs: Vec<
        Outgoing,
    >)
        requires
            self.wf(),
        ensures
            outs_view(outs@) == game_data_spec(self@, client_id, target_id, payload@, channel),
    {
        let mut outs: Vec<Outgoing> = Vec::new();
        let i = match self.session_app_index(client_id) {
            None => {
                proof {
                    assert(outs_view(outs@) =~= Seq::<OutgoingView>::empty());
                }
                return outs;
            },
            Some(i) => i,
        };
        let j = match self.first_room_with(i, client_id) {
            None => {
                proof {
                    assert(outs_view(outs@) =~= Seq::<OutgoingView>::empty());
                }
                return outs;
            },
            Some(j) => j,
        };
        let room = &self.app_sessions[i].rooms[j];
        proof {
            assert(first_room_of(self@.apps[i as int].rooms, client_id) == j);
            assert(self@.apps[i as int].rooms[j as int] == room@);
        }
        if let Some(sender_godot_id) = room.get_godot_id(client_id) {
            if let Some(target_renet_id) = room.get_renet_id(target_id) {
                outs.push(
                    Outgoing {
                        target: target_renet_id,
                        packet: PacketType::GameData(sender_godot_id, payload),
                        channel,
                    },
                );
            }
        }
        proof {
            assert(outs_view(outs@) =~= game_data_spec(self@, client_id, target_id, payload@, channel));
        }
        outs
    }

    fn handle_disconnect(&mut self, client_id: u64) -> (outs: Vec<Outgoing>)
        requires
            old(self).wf(),
        ensures
            final(self).wf(),
            final(self)@ == disconnect_state(old(self)@, client_id),
            disconnect_messages_ok(old(self)@, client_id, outs_view(outs@)),
    {
        let mut outs: Vec<Outgoing> = Vec::new();
        let ghost v0 = self@;
        let i = match self.session_app_index(client_id) {
            None => {
                proof {
                    assert(outs_view(outs@) =~= Seq::<OutgoingView>::empty());
                }
                return outs;
            },
            Some(i) => i,
        };
        let j = match self.first_room_with(i, client_id) {
            None => {
                proof {
                    assert(outs_view(outs@) =~= Seq::<OutgoingView>::empty());
                }
                return outs;
            },
            Some(j) => j,
        };
        let ghost rv = v0.apps[i as int].rooms;
        proof {
            assert(first_room_of(rv, client_id) == j);
            assert(rv[j as int] == self.app_sessions@[i as int].rooms@[j as int]@);
        }
        let godot_id = match self.app_sessions[i].rooms[j].get_godot_id(client_id) {
            Some(g) => g,
            None => {
                proof {
                    assert(false);
                }
                return outs;
            },
        };
        let host = self.app_sessions[i].rooms[j].get_host();
        if host == client_id {
            let members = self.app_sessions[i].rooms[j].get_renet_ids();
            let mut k: usize = 0;
            while k < members.len()
                invariant
                    k <= members@.len(),
                    members@.no_duplicates(),
                    forall|a: int| 0 <= a < outs@.len() ==> (#[trigger] outs@[a])@.packet == PacketTypeView::ForceDisconnect
                        && outs@[a].channel == RenetChannel::ReliableOrdered,
                    outs_view(outs@).map_values(|o: OutgoingView| o.target).no_duplicates(),
                    outs_view(outs@).map_values(|o: OutgoingView| o.target).to_set() == members@.take(
                        k as int,
                    ).to_set().remove(client_id),
                decreases members.len() - k,
            {
                let ghost before = outs_view(outs@).map_values(|o: OutgoingView| o.target);
                let id = members[k];
                if id != client_id {
                    outs.push(
                        Outgoing {
                            target: id,
                            packet: PacketType::ForceDisconnect(),
                            channel: RenetChannel::ReliableOrdered,
                        },
                    );
                }
                proof {
                    let after = outs_view(outs@).map_values(|o: OutgoingView| o.target);
                    let t0 = members@.take(k as int);
                    let t1 = members@.take(k + 1);
                    assert(t1 =~= t0.push(id));
                    assert(!t0.contains(id)) by {
                        if t0.contains(id) {
                            let x = choose|x: int| 0 <= x < t0.len() && t0[x] == id;
                            assert(members@[x] == members@[k as int]);
                        }
                    }
                    if id != client_id {
                        assert(after =~= before.push(id));
                        assert(!before.contains(id)) by {
                            if before.contains(id) {
                                assert(before.to_set().contains(id));
                            }
                        }
                        assert forall|x: u64| after.to_set().contains(x) <==> t1.to_set().remove(client_id).contains(x) by {
                            if after.to_set().contains(x) {
                                let y = choose|y: int| 0 <= y < after.len() && after[y] == x;
                                if y < before.len() {
                                    assert(before[y] == x);
                                    assert(before.to_set().contains(x));
                                } else {
                                    assert(t1[t1.len() - 1] == x);
                                }
                            }
                            if t1.to_set().remove(client_id).contains(x) {
                                let y = choose|y: int| 0 <= y < t1.len() && t1[y] == x;
                                if y < t0.len() {
                                    assert(t0[y] == x);
                                    assert(t0.to_set().contains(x));
                                    assert(before.to_set().contains(x));
                                    let z = choose|z: int| 0 <= z < before.len() && before[z] == x;
                                    assert(after[z] == x);
                                } else {
                                    assert(after[after.len() - 1] == x);
                                }
                            }
                        }
                        assert(after.to_set() =~= t1.to_set().remove(client_id));
                    } else {
                        assert(after =~= before);
                        assert(after.to_set() =~= t1.to_set().remove(client_id));
                    }
                }
                k += 1;
            }
            proof {
                assert(members@.take(members@.len() as int) =~= members@);
            }
            self.app_sessions[i].remove_room_at(j);
            proof {
                assert(self@.apps =~= disconnect_state(v0, client_id).apps);
                assert(disconnect_messages_ok(v0, client_id, outs_view(outs@)));
            }
        } else {
            outs.push(
                Outgoing {
                    target: host,
                    packet: PacketType::PeerLeftRoom(godot_id),
                    channel: RenetChannel::ReliableOrdered,
                },
            );
            self.app_sessions[i].rooms[j].remove_peer(client_id);
            proof {
                let nr = app_view(self.app_sessions@[i as int]).rooms;
                assert(nr =~= rv.update(j as int, without_peer(rv[j as int], client_id)));
                assert(renet_rooms_wf(nr)) by {
                    assert forall|x: int| 0 <= x < nr.len() implies crate::peers::peer_table_wf(
                        (#[trigger] nr[x]).peers,
                    ) by {
                        if x != j {
                            assert(nr[x] == rv[x]);
                        }
                    }
                    assert forall|a: int, b: int|
                        0 <= a < nr.len() && 0 <= b < nr.len() && a != b implies (#[trigger] nr[a]).id != (
                        #[trigger] nr[b]).id by {
                        assert(nr[a].id == rv[a].id);
                        assert(nr[b].id == rv[b].id);
                    }
                }
            }
            let ghost mid = self@;
            if self.app_sessions[i].rooms[j].is_empty() {
                self.app_sessions[i].remove_room_at(j);
                proof {
                    let left = without_peer(rv[j as int], client_id);
                    assert(mid.apps[i as int].rooms =~= rv.update(j as int, left));
                    assert(mid.apps[i as int].rooms.remove(j as int) =~= rv.remove(j as int));
                    assert(self@.apps[i as int].rooms =~= rv.remove(j as int));
                    assert(self@.apps[i as int].id == v0.apps[i as int].id);
                    assert(left.peers.clients.is_empty() && left.peers.godots.is_empty());
                    assert forall|a: int| 0 <= a < self@.apps.len() && a != i implies self@.apps[a] == v0.apps[a] by {}
                    assert(self@.apps =~= disconnect_state(v0, client_id).apps);
                }
            } else {
                proof {
                    let left = without_peer(rv[j as int], client_id);
                    assert(self@.apps[i as int].rooms =~= rv.update(j as int, left));
                    assert(self@.apps[i as int].id == v0.apps[i as int].id);
                    assert(!(left.peers.clients.is_empty() && left.peers.godots.is_empty()));
                    assert forall|a: int| 0 <= a < self@.apps.len() && a != i implies self@.apps[a] == v0.apps[a] by {}
                    assert(self@.apps =~= disconnect_state(v0, client_id).apps);
                }
            }
            proof {
                assert(outs_view(outs@) =~= seq![
                    reliable(rv[j as int].host, PacketTypeView::PeerLeftRoom(rv[j as int].peers.clients[client_id])),
                ]);
            }
        }
        proof {
            assert forall|a: int| 0 <= a < self@.apps.len() implies renet_rooms_wf(
                #[trigger] self@.apps[a].rooms,
            ) by {
                if a != i {
                    assert(self@.apps[a] == v0.apps[a]);
                }
            }
            assert(outs_view(outs@) =~= outs_view(outs@));
        }
        outs
    }

    /// Whether the message `packet` can be handled (see [`packet_handled`]).
    pub fn handles_packet(&self, packet: &Packet) -> (r: bool)
        requires
            self.wf(),
        ensures
            r == packet_handled(self@, packet.renet_id, packet.data@),
    {
        if !crate::packet_type::decodable(packet.data.as_slice()) {
            return false;
        }
        match PacketType::from_bytes(packet.data.as_slice()) {
            Ok(PacketType::JoinRoom(room_id)) => match self.session_app_index(packet.renet_id) {
                None => true,
                Some(i) => match self.app_sessions[i].position(room_id.as_str()) {
                    None => true,
                    Some(j) => {
                        proof {
                            let rv = self@.apps[i as int].rooms;
                            assert(renet_room_index(rv, room_id@) == j);
                            assert(rv[j as int] == self.app_sessions@[i as int].rooms@[j as int]@);
                        }
                        self.app_sessions[i].rooms[j].has_peer_ids_left()
                    },
                },
            },
            _ => true,
        }
    }

    /// Handles a message from a client: authentication, room creation,
    /// joining a room by name, and game data for a peer of the sender's
    /// room. Messages that cannot be decoded, or of other kinds, are
    /// ignored.
    pub fn process_packet(&mut self, packet: Packet) -> (outs: Vec<Outgoing>)
        requires
            old(self).wf(),
            packet_handled(old(self)@, packet.renet_id, packet.data@),
        ensures
            final(self).wf(),
            (final(self)@, outs_view(outs@)) == packet_spec(
                old(self)@,
                packet.renet_id,
                packet.data@,
                packet.channel,
            ),
    {
        match PacketType::from_bytes(packet.data.as_slice()) {
            Ok(packet_type) => match packet_type {
                PacketType::CreateRoom => self.handle_create_room(packet.renet_id),
                PacketType::JoinRoom(room_id) => self.handle_join_room(packet.renet_id, room_id),
                PacketType::GameData(target_id, data) => self.handle_game_data(
                    packet.renet_id,
                    target_id,
                    data,
                    packet.channel,
                ),
                PacketType::Authenticate(app_id) => self.handle_authenticate(packet.renet_id, app_id),
                _ => {
                    let outs: Vec<Outgoing> = Vec::new();
                    proof {
                        assert(outs_view(outs@) =~= Seq::<OutgoingView>::empty());
                    }
                    outs
                },
            },
            Err(_) => {
                let outs: Vec<Outgoing> = Vec::new();
                proof {
                    assert(outs_view(outs@) =~= Seq::<OutgoingView>::empty());
                }
                outs
            },
        }
    }

    /// Handles a transport event: when a client disconnects, the room it is
    /// in (the first one, should there be several) loses it; a host's
    /// departure closes the room and tells its members to disconnect, a
    /// member's departure is reported to the host, and a room left empty is
    /// closed.
    pub fn process_event(&mut self, event: RenetEvent) -> (outs: Vec<Outgoing>)
        requires
            old(self).wf(),
        ensures
            final(self).wf(),
            match event {
                RenetEvent::ClientDisconnected { client_id, .. } => {
                    &&& final(self)@ == disconnect_state(old(self)@, client_id)
                    &&& disconnect_messages_ok(old(self)@, client_id, outs_view(outs@))
                },
                _ => final(self)@ == old(self)@ && outs@.len() == 0,
            },
    {
        match event {
            RenetEvent::ClientDisconnected { client_id, reason: _ } => self.handle_disconnect(client_id),
            _ => Vec::new(),
        }
    }
}

// ---------------------------------------------------------------------
// Laws of the relay
// ---------------------------------------------------------------------

proof fn lemma_first_room_is_unique(rooms: Seq<RoomView>, c: u64, j: int)
    requires
        is_first_room_of(rooms, c, j),
    ensures
        in_some_room(rooms, c),
        first_room_of(rooms, c) == j,
{
    let k = first_room_of(rooms, c);
    assert(is_first_room_of(rooms, c, k));
    if k < j {
        assert(!rooms[k].peers.clients.contains_key(c));
    } else if j < k {
        assert(!rooms[j].peers.clients.contains_key(c));
    }
}

proof fn lemma_session_app_is(v: RelayServerView, client: u64, i: int)
    requires
        relay_server_wf(v),
        v.sessions.contains_key(client),
        0 <= i < v.apps.len(),
        v.apps[i].id == v.sessions[client].0,
    ensures
        session_app(v, client) == Some(i),
{
    let k = renet_app_index(v.apps, v.sessions[client].0);
    assert(v.apps[k].id == v.apps[i].id);
}

/// Authentication against the whitelist: with an empty whitelist every
/// application is let in; otherwise an application id is let in exactly
/// when it equals one of the whitelist's entries, wherever that entry
/// stands. A client let in is told so and gets a session for that
/// application, which exists afterwards; a client refused is told to
/// disconnect and nothing changes.
pub proof fn law_whitelist_admits_exactly_its_entries(
    v: RelayServerView,
    client: u64,
    data: Seq<u8>,
    channel: RenetChannel,
    app_id: Seq<char>,
)
    requires
        renet_decode(data) == Ok::<PacketTypeView, PacketTypeErrorView>(PacketTypeView::Authenticate(app_id)),
    ensures
        ({
            let (n, outs) = packet_spec(v, client, data, channel);
            let admitted = v.whitelist.len() == 0 || exists|k: int|
                0 <= k < v.whitelist.len() && #[trigger] v.whitelist[k] == app_id;
            &&& admitted ==> {
                &&& outs == seq![reliable(client, PacketTypeView::ClientAuthenticated)]
                &&& n.sessions.contains_key(client)
                &&& n.sessions[client].0 == app_id
                &&& exists|a: int| 0 <= a < n.apps.len() && (#[trigger] n.apps[a]).id == app_id
                &&& n.whitelist == v.whitelist
            }
            &&& !admitted ==> {
                &&& outs == seq![reliable(client, PacketTypeView::ForceDisconnect)]
                &&& n == v
            }
        }),
{
    let admitted = v.whitelist.len() == 0 || exists|k: int|
        0 <= k < v.whitelist.len() && #[trigger] v.whitelist[k] == app_id;
    assert(admitted == whitelisted(v.whitelist, app_id));
    let n = packet_spec(v, client, data, channel).0;
    if admitted {
        if has_renet_app(v.apps, app_id) {
            let a = renet_app_index(v.apps, app_id);
            assert(n.apps[a].id == app_id);
        } else {
            assert(n.apps[v.apps.len() as int].id == app_id);
        }
    }
}

/// Creating a room: the creator's room, named after the creator's id, is a
/// fresh room hosted by the creator with the creator as its only peer
/// (identifier 1, the next one being 2), whatever room of that name was
/// there before; every room of another name stays where and as it was; the
/// creator is told the room's name and identifier 1.
pub proof fn law_created_room_is_fresh(
    v: RelayServerView,
    client: u64,
    data: Seq<u8>,
    channel: RenetChannel,
    i: int,
)
    requires
        relay_server_wf(v),
        renet_decode(data) == Ok::<PacketTypeView, PacketTypeErrorView>(PacketTypeView::CreateRoom),
        v.sessions.contains_key(client),
        0 <= i < v.apps.len(),
        v.apps[i].id == v.sessions[client].0,
    ensures
        ({
            let (n, outs) = packet_spec(v, client, data, channel);
            let name = decimal_nat(client as nat);
            let fresh = RoomView {
                id: name,
                host: client,
                peers: PeerTableView {
                    clients: Map::<u64, i32>::empty().insert(client, 1),
                    godots: Map::<i32, u64>::empty().insert(1, client),
                    next: 2,
                },
            };
            &&& outs == seq![reliable(client, PacketTypeView::ConnectedToRoom(name, 1))]
            &&& n.apps.len() == v.apps.len()
            &&& n.apps[i].id == v.apps[i].id
            &&& forall|a: int| 0 <= a < v.apps.len() && a != i ==> n.apps[a] == v.apps[a]
            &&& exists|k: int| 0 <= k < n.apps[i].rooms.len() && #[trigger] n.apps[i].rooms[k] == fresh
            &&& forall|k: int|
                0 <= k < n.apps[i].rooms.len() && (#[trigger] n.apps[i].rooms[k]).id == name
                    ==> n.apps[i].rooms[k] == fresh
            &&& forall|k: int|
                0 <= k < v.apps[i].rooms.len() && (#[trigger] v.apps[i].rooms[k]).id != name ==> k
                    < n.apps[i].rooms.len() && n.apps[i].rooms[k] == v.apps[i].rooms[k]
        }),
{
    lemma_session_app_is(v, client, i);
    let name = decimal_nat(client as nat);
    let rooms = v.apps[i].rooms;
    let n = packet_spec(v, client, data, channel).0;
    let nr = n.apps[i].rooms;
    let fresh = RoomView {
        id: name,
        host: client,
        peers: PeerTableView {
            clients: Map::<u64, i32>::empty().insert(client, 1),
            godots: Map::<i32, u64>::empty().insert(1, client),
            next: 2,
        },
    };
    let start = RoomView {
        id: name,
        host: client,
        peers: PeerTableView { clients: Map::empty(), godots: Map::empty(), next: 1 },
    };
    assert(with_peer(start, client).peers.clients =~= fresh.peers.clients);
    assert(with_peer(start, client).peers.godots =~= fresh.peers.godots);
    assert(with_peer(start, client) == fresh);
    assert(nr == store_room(rooms, fresh));
    if has_renet_room(rooms, name) {
        let k = renet_room_index(rooms, name);
        assert(nr[k] == fresh);
        assert forall|k2: int| 0 <= k2 < nr.len() && (#[trigger] nr[k2]).id == name implies nr[k2]
            == fresh by {
            if k2 != k {
                assert(rooms[k2].id == name);
                assert(rooms[k].id == name);
            }
        }
    } else {
        let k = rooms.len() as int;
        assert(nr[k] == fresh);
        assert forall|k2: int| 0 <= k2 < nr.len() && (#[trigger] nr[k2]).id == name implies nr[k2]
            == fresh by {
            if k2 != k {
                assert(nr[k2] == rooms[k2]);
            }
        }
    }
}

/// Joining a room by name: a client of an application that has a room of
/// that name (which can still hand out an identifier) is added to that
/// very room under the room's next identifier, which no peer of the room
/// held; the client is told the name of the room it joined, the one it
/// asked for, with that identifier, and the room's host is told of the new
/// peer. Every other room stays as it was.
pub proof fn law_join_names_the_room_joined(
    v: RelayServerView,
    client: u64,
    data: Seq<u8>,
    channel: RenetChannel,
    room_id: Seq<char>,
    i: int,
    k: int,
)
    requires
        relay_server_wf(v),
        renet_decode(data) == Ok::<PacketTypeView, PacketTypeErrorView>(PacketTypeView::JoinRoom(room_id)),
        v.sessions.contains_key(client),
        0 <= i < v.apps.len(),
        v.apps[i].id == v.sessions[client].0,
        0 <= k < v.apps[i].rooms.len(),
        v.apps[i].rooms[k].id == room_id,
    ensures
        ({
            let (n, outs) = packet_spec(v, client, data, channel);
            let r = v.apps[i].rooms[k];
            let pid = r.peers.next;
            &&& outs == seq![
                reliable(client, PacketTypeView::ConnectedToRoom(room_id, pid)),
                reliable(r.host, PacketTypeView::PeerJoinedRoom(pid)),
            ]
            &&& !r.peers.godots.contains_key(pid)
            &&& n.apps.len() == v.apps.len()
            &&& n.apps[i].rooms.len() == v.apps[i].rooms.len()
            &&& n.apps[i].rooms[k].id == room_id
            &&& n.apps[i].rooms[k].host == r.host
            &&& n.apps[i].rooms[k].peers.clients.contains_key(client)
            &&& n.apps[i].rooms[k].peers.clients[client] == pid
            &&& n.apps[i].rooms[k].peers.godots.contains_key(pid)
            &&& n.apps[i].rooms[k].peers.godots[pid] == client
            &&& forall|k2: int| 0 <= k2 < v.apps[i].rooms.len() && k2 != k ==> #[trigger] n.apps[i].rooms[k2]
                == v.apps[i].rooms[k2]
            &&& forall|a: int| 0 <= a < v.apps.len() && a != i ==> #[trigger] n.apps[a] == v.apps[a]
        }),
{
    lemma_session_app_is(v, client, i);
    let rooms = v.apps[i].rooms;
    let j = renet_room_index(rooms, room_id);
    assert(rooms[j].id == room_id);
    assert(j == k);
    crate::peers::law_next_peer_id_is_unused(rooms[k].peers);
}

/// Relaying game data: a message for a peer of the sender's room goes to
/// the client holding that identifier, carries the sender's own identifier
/// and the payload, and travels on the channel the message arrived on.
/// Game data never changes the state, and whatever is relayed travels on
/// that channel.
pub proof fn law_game_data_keeps_its_channel(
    v: RelayServerView,
    client: u64,
    data: Seq<u8>,
    channel: RenetChannel,
    target: i32,
    payload: Seq<u8>,
)
    requires
        renet_decode(data) == Ok::<PacketTypeView, PacketTypeErrorView>(PacketTypeView::GameData(target, payload)),
    ensures
        ({
            let (n, outs) = packet_spec(v, client, data, channel);
            &&& n == v
            &&& outs.len() <= 1
            &&& forall|o: int| 0 <= o < outs.len() ==> (#[trigger] outs[o]).channel == channel
                && outs[o].packet is GameData && outs[o].packet->GameData_1 == payload
        }),
{
}

/// Relaying game data, where the sender is in a room of its application
/// (the first such room) and the target identifier is held in that room:
/// exactly one message, to the target's client, with the sender's
/// identifier and the payload, on the channel the message arrived on.
pub proof fn law_game_data_reaches_its_target(
    v: RelayServerView,
    client: u64,
    data: Seq<u8>,
    channel: RenetChannel,
    target: i32,
    payload: Seq<u8>,
    i: int,
    j: int,
)
    requires
        relay_server_wf(v),
        renet_decode(data) == Ok::<PacketTypeView, PacketTypeErrorView>(PacketTypeView::GameData(target, payload)),
        v.sessions.contains_key(client),
        0 <= i < v.apps.len(),
        v.apps[i].id == v.sessions[client].0,
        is_first_room_of(v.apps[i].rooms, client, j),
        v.apps[i].rooms[j].peers.godots.contains_key(target),
    ensures
        packet_spec(v, client, data, channel).1 == seq![
            OutgoingView {
                target: v.apps[i].rooms[j].peers.godots[target],
                packet: PacketTypeView::GameData(v.apps[i].rooms[j].peers.clients[client], payload),
                channel,
            },
        ],
{
    lemma_session_app_is(v, client, i);
    lemma_first_room_is_unique(v.apps[i].rooms, client, j);
}

/// A host leaving closes its room: after the host of a room (the first
/// room it is in) disconnects, its application holds no room of that name
/// any more, so a later join of that name finds nothing; every other room
/// of the application stays, in order; each other member is told to
/// disconnect, once.
pub proof fn law_host_leaving_closes_its_room(
    v: RelayServerView,
    client: u64,
    i: int,
    j: int,
    outs: Seq<OutgoingView>,
)
    requires
        relay_server_wf(v),
        disconnect_messages_ok(v, client, outs),
        v.sessions.contains_key(client),
        0 <= i < v.apps.len(),
        v.apps[i].id == v.sessions[client].0,
        is_first_room_of(v.apps[i].rooms, client, j),
        v.apps[i].rooms[j].host == client,
    ensures
        ({
            let n = disconnect_state(v, client);
            let r = v.apps[i].rooms[j];
            &&& n.apps.len() == v.apps.len()
            &&& forall|k: int| 0 <= k < n.apps[i].rooms.len() ==> (#[trigger] n.apps[i].rooms[k]).id != r.id
            &&& n.apps[i].rooms == v.apps[i].rooms.remove(j)
            &&& forall|a: int| 0 <= a < v.apps.len() && a != i ==> #[trigger] n.apps[a] == v.apps[a]
            &&& n.sessions == v.sessions
            &&& forall|o: int| 0 <= o < outs.len() ==> (#[trigger] outs[o]) == reliable(
                outs[o].target,
                PacketTypeView::ForceDisconnect,
            )
            &&& forall|o: int| 0 <= o < outs.len() ==> r.peers.clients.contains_key(#[trigger] outs[o].target)
                && outs[o].target != client
            &&& forall|c: u64| r.peers.clients.contains_key(c) && c != client ==> exists|o: int|
                0 <= o < outs.len() && (#[trigger] outs[o]).target == c
            &&& forall|o1: int, o2: int| 0 <= o1 < o2 < outs.len() ==> (#[trigger] outs[o1]).target != (
            #[trigger] outs[o2]).target
        }),
{
    lemma_session_app_is(v, client, i);
    lemma_first_room_is_unique(v.apps[i].rooms, client, j);
    let rooms = v.apps[i].rooms;
    let nr = rooms.remove(j);
    assert forall|k: int| 0 <= k < nr.len() implies (#[trigger] nr[k]).id != rooms[j].id by {
        let ok = if k < j { k } else { k + 1 };
        assert(nr[k] == rooms[ok]);
    }
    let r = rooms[j];
    let ts = outs.map_values(|o: OutgoingView| o.target);
    assert forall|o: int| 0 <= o < outs.len() implies r.peers.clients.contains_key(#[trigger] outs[o].target)
        && outs[o].target != client by {
        assert(ts[o] == outs[o].target);
        assert(ts.to_set().contains(ts[o]));
    }
    assert forall|c: u64| r.peers.clients.contains_key(c) && c != client implies exists|o: int|
        0 <= o < outs.len() && (#[trigger] outs[o]).target == c by {
        assert(r.peers.clients.dom().remove(client).contains(c));
        assert(ts.to_set().contains(c));
        let o = choose|o: int| 0 <= o < ts.len() && ts[o] == c;
        assert(outs[o].target == c);
    }
    assert forall|o1: int, o2: int| 0 <= o1 < o2 < outs.len() implies (#[trigger] outs[o1]).target != (
    #[trigger] outs[o2]).target by {
        assert(ts[o1] == outs[o1].target);
        assert(ts[o2] == outs[o2].target);
    }
    assert forall|o: int| 0 <= o < outs.len() implies (#[trigger] outs[o]) == reliable(
        outs[o].target,
        PacketTypeView::ForceDisconnect,
    ) by {
        assert(outs[o].packet == PacketTypeView::ForceDisconnect);
    }
}

/// A member leaving: when a client that is not its room's host
/// disconnects (from the first room it is in), the host is told which
/// identifier left; the room loses that client and its identifier and
/// keeps everyone else, or closes when no one is left; every other room
/// stays as it was.
pub proof fn law_member_leaving_is_reported_to_the_host(
    v: RelayServerView,
    client: u64,
    i: int,
    j: int,
    outs: Seq<OutgoingView>,
)
    requires
        relay_server_wf(v),
        disconnect_messages_ok(v, client, outs),
        v.sessions.contains_key(client),
        0 <= i < v.apps.len(),
        v.apps[i].id == v.sessions[client].0,
        is_first_room_of(v.apps[i].rooms, client, j),
        v.apps[i].rooms[j].host != client,
    ensures
        ({
            let n = disconnect_state(v, client);
            let r = v.apps[i].rooms[j];
            let gone = r.peers.clients[client];
            let left_clients = r.peers.clients.remove(client);
            let left_godots = r.peers.godots.remove(gone);
            &&& outs == seq![reliable(r.host, PacketTypeView::PeerLeftRoom(gone))]
            &&& n.apps.len() == v.apps.len()
            &&& forall|a: int| 0 <= a < v.apps.len() && a != i ==> #[trigger] n.apps[a] == v.apps[a]
            &&& n.sessions == v.sessions
            &&& (left_clients.is_empty() && left_godots.is_empty()) ==> n.apps[i].rooms == v.apps[i].rooms.remove(j)
            &&& !(left_clients.is_empty() && left_godots.is_empty()) ==> {
                &&& n.apps[i].rooms.len() == v.apps[i].rooms.len()
                &&& n.apps[i].rooms[j].id == r.id
                &&& n.apps[i].rooms[j].host == r.host
                &&& n.apps[i].rooms[j].peers.clients == left_clients
                &&& n.apps[i].rooms[j].peers.godots == left_godots
                &&& n.apps[i].rooms[j].peers.next == r.peers.next
                &&& forall|k: int| 0 <= k < v.apps[i].rooms.len() && k != j ==> #[trigger] n.apps[i].rooms[k]
                    == v.apps[i].rooms[k]
            }
        }),
{
    lemma_session_app_is(v, client, i);
    lemma_first_room_is_unique(v.apps[i].rooms, client, j);
}

/// After a host left, a join of its room's name by a client of the same
/// application gets no answer and changes nothing.
pub proof fn law_closed_room_cannot_be_joined(
    v: RelayServerView,
    host: u64,
    i: int,
    j: int,
    joiner: u64,
    data: Seq<u8>,
    channel: RenetChannel,
)
    requires
        relay_server_wf(v),
        v.sessions.contains_key(host),
        0 <= i < v.apps.len(),
        v.apps[i].id == v.sessions[host].0,
        is_first_room_of(v.apps[i].rooms, host, j),
        v.apps[i].rooms[j].host == host,
        v.sessions.contains_key(joiner),
        v.sessions[joiner].0 == v.apps[i].id,
        renet_decode(data) == Ok::<PacketTypeView, PacketTypeErrorView>(PacketTypeView::JoinRoom(v.apps[i].rooms[j].id)),
    ensures
        ({
            let n = disconnect_state(v, host);
            packet_spec(n, joiner, data, channel) == (n, Seq::<OutgoingView>::empty())
        }),
{
    lemma_session_app_is(v, host, i);
    lemma_first_room_is_unique(v.apps[i].rooms, host, j);
    let n = disconnect_state(v, host);
    let room_id = v.apps[i].rooms[j].id;
    lemma_session_app_is(v, host, i);
    assert(n == with_rooms(v, i, v.apps[i].rooms.remove(j)));
    assert(relay_server_wf(n)) by {
        assert forall|a: int| 0 <= a < n.apps.len() implies renet_rooms_wf(#[trigger] n.apps[a].rooms) by {
            if a == i {
                let rooms = v.apps[i].rooms;
                let nr = n.apps[i].rooms;
                assert forall|x: int, y: int| 0 <= x < nr.len() && 0 <= y < nr.len() && x != y implies (
                #[trigger] nr[x]).id != (#[trigger] nr[y]).id by {
                    let ox = if x < j { x } else { x + 1 };
                    let oy = if y < j { y } else { y + 1 };
                    assert(nr[x] == rooms[ox]);
                    assert(nr[y] == rooms[oy]);
                }
                assert forall|x: int| 0 <= x < nr.len() implies crate::peers::peer_table_wf((#[trigger] nr[x]).peers) by {
                    let ox = if x < j { x } else { x + 1 };
                    assert(nr[x] == rooms[ox]);
                }
            } else {
                assert(n.apps[a] == v.apps[a]);
            }
        }
        assert forall|a: int, b: int| 0 <= a < n.apps.len() && 0 <= b < n.apps.len() && a != b implies (
        #[trigger] n.apps[a]).id != (#[trigger] n.apps[b]).id by {
            assert(n.apps[a].id == v.apps[a].id);
            assert(n.apps[b].id == v.apps[b].id);
        }
    }
    lemma_session_app_is(n, joiner, i);
    assert(!has_renet_room(n.apps[i].rooms, room_id));
}

} // verus!
