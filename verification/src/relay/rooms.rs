//! The rooms of an application: each has a numeric id, a join code that
//! players type to ask for entry, a host, its peers, whether it is listed
//! publicly, and free-form metadata its host keeps up to date.
use vstd::prelude::*;
use std::collections::HashMap;
use crate::peers::{ClientId, PeerTable, PeerTableView};
use crate::relay::ids::RoomId;
use crate::relay::message::{RoomInfo, RoomInfoView};
use crate::text::str_eq;
use crate::relay::room::{id_of_code, law_parse_id_of_code, parse_id, RoomIds, ID_SPACE};
use vstd::std_specs::iter::IteratorSpec;

verus! {

broadcast use vstd::std_specs::hash::group_hash_axioms;

/// A room of an application.
#[derive(Debug)]
pub struct Room {
    id: RoomId,
    join_code: String,
    is_public: bool,
    metadata: String,
    host_id: ClientId,
    peers: PeerTable,
}

/// The content of a [`Room`].
pub struct RoomView {
    pub id: RoomId,
    pub join_code: Seq<char>,
    pub is_public: bool,
    pub metadata: Seq<char>,
    pub host: ClientId,
    pub peers: PeerTableView,
}

impl View for Room {
    type V = RoomView;

    closed spec fn view(&self) -> RoomView {
        RoomView {
            id: self.id,
            join_code: self.join_code@,
            is_public: self.is_public,
            metadata: self.metadata@,
            host: self.host_id,
            peers: self.peers@,
        }
    }
}

/// What a room list says of a room.
pub open spec fn room_info(r: RoomView) -> RoomInfoView {
    RoomInfoView {
        join_code: r.join_code,
        metadata: r.metadata,
        players: r.peers.clients.dom().len() as i32,
    }
}

/// A room after `c` joined it.
pub open spec fn with_peer(r: RoomView, c: ClientId) -> RoomView {
    RoomView {
        peers: PeerTableView {
            clients: r.peers.clients.insert(c, r.peers.next),
            godots: r.peers.godots.insert(r.peers.next, c),
            next: (r.peers.next + 1) as i32,
        },
        ..r
    }
}

/// A room after `c` left it.
pub open spec fn without_peer(r: RoomView, c: ClientId) -> RoomView {
    RoomView {
        peers: PeerTableView {
            clients: r.peers.clients.remove(c),
            godots: if r.peers.clients.contains_key(c) {
                r.peers.godots.remove(r.peers.clients[c])
            } else {
                r.peers.godots
            },
            next: r.peers.next,
        },
        ..r
    }
}

/// A room with no peer yet.
pub open spec fn empty_room(id: RoomId, join_code: Seq<char>, host: ClientId, is_public: bool, metadata: Seq<char>) -> RoomView {
    RoomView {
        id,
        join_code,
        is_public,
        metadata,
        host,
        peers: PeerTableView { clients: Map::empty(), godots: Map::empty(), next: 1 },
    }
}

impl Room {
    pub open spec fn wf(&self) -> bool {
        crate::peers::peer_table_wf(self@.peers)
    }

    fn new(id: RoomId, join_code: String, host_id: ClientId, is_public: bool, metadata: String) -> (r:
        Self)
        ensures
            r.wf(),
            r@ == empty_room(id, join_code@, host_id, is_public, metadata@),
    {
        let r = Self { id, join_code, is_public, metadata, host_id, peers: PeerTable::new() };
        proof {
            assert(r@.peers.clients =~= Map::<ClientId, i32>::empty());
            assert(r@.peers.godots =~= Map::<i32, ClientId>::empty());
        }
        r
    }

    pub fn id(&self) -> (r: RoomId)
        ensures
            r == self@.id,
    {
        self.id
    }

    pub fn join_code(&self) -> (r: &str)
        ensures
            r@ == self@.join_code,
    {
        self.join_code.as_str()
    }

    pub fn is_public(&self) -> (r: bool)
        ensures
            r == self@.is_public,
    {
        self.is_public
    }

    pub fn metadata(&self) -> (r: &str)
        ensures
            r@ == self@.metadata,
    {
        self.metadata.as_str()
    }

    pub fn get_host(&self) -> (r: ClientId)
        ensures
            r == self@.host,
    {
        self.host_id
    }

    /// The peer identifier of `client_id`, if it is a member.
    pub fn client_to_gd(&self, client_id: ClientId) -> (r: Option<i32>)
        ensures
            r == (if self@.peers.clients.contains_key(client_id) {
                Some(self@.peers.clients[client_id])
            } else {
                None::<i32>
            }),
    {
        self.peers.godot_id(client_id)
    }

    /// The member behind peer identifier `godot_id`, if any.
    pub fn gd_to_client(&self, godot_id: i32) -> (r: Option<ClientId>)
        ensures
            r == (if self@.peers.godots.contains_key(godot_id) {
                Some(self@.peers.godots[godot_id])
            } else {
                None::<ClientId>
            }),
    {
        self.peers.client_id(godot_id)
    }

    /// Whether the room can still hand out a peer identifier.
    pub fn has_peer_ids_left(&self) -> (r: bool)
        ensures
            r == (self@.peers.next < i32::MAX),
    {
        self.peers.next_id() < i32::MAX
    }

    /// The members, each once, in no particular order.
    pub fn get_clients(&self) -> (r: Vec<ClientId>)
        ensures
            r@.to_set() == self@.peers.clients.dom(),
            r@.no_duplicates(),
    {
        self.peers.client_ids()
    }

    /// Gives `client_id` the room's next peer identifier and returns it.
    fn add_peer(&mut self, client_id: ClientId) -> (godot_pid: i32)
        requires
            old(self).wf(),
            old(self)@.peers.next < i32::MAX,
        ensures
            final(self).wf(),
            final(self)@ == with_peer(old(self)@, client_id),
            godot_pid == old(self)@.peers.next,
    {
        let g = self.peers.add_peer(client_id);
        proof {
            assert(self@.peers.clients =~= with_peer(old(self)@, client_id).peers.clients);
            assert(self@.peers.godots =~= with_peer(old(self)@, client_id).peers.godots);
        }
        g
    }

    /// Takes `client_id` and its peer identifier out of the room.
    fn remove_peer(&mut self, client_id: ClientId)
        requires
            old(self).wf(),
        ensures
            final(self).wf(),
            final(self)@ == without_peer(old(self)@, client_id),
    {
        let _ = self.peers.remove_peer(client_id);
        proof {
            assert(self@.peers.clients =~= without_peer(old(self)@, client_id).peers.clients);
            assert(self@.peers.godots =~= without_peer(old(self)@, client_id).peers.godots);
        }
    }

    /// What a room list says of this room.
    pub fn to_info(&self) -> (info: RoomInfo)
        requires
            self.wf(),
        ensures
            info@ == room_info(self@),
    {
        let members = self.get_clients();
        proof {
            self.peers.lemma_client_count_bound();
            members@.unique_seq_to_set();
        }
        RoomInfo {
            join_code: self.join_code.clone(),
            metadata: self.metadata.clone(),
            players: members.len() as i32,
        }
    }
}

// ---------------------------------------------------------------------
// The rooms of an application
// ---------------------------------------------------------------------

/// The rooms of an application, by id, with the join codes in use.
pub struct Rooms {
    by_id: HashMap<RoomId, Room>,
    codes: RoomIds,
    next_id: RoomId,
}

/// The content of [`Rooms`].
pub struct RoomsView {
    /// The rooms by id.
    pub rooms: Map<RoomId, RoomView>,
    /// The numbers of the join codes in use.
    pub codes: Set<u32>,
    /// The id the next room gets.
    pub next_id: RoomId,
}

impl View for Rooms {
    type V = RoomsView;

    closed spec fn view(&self) -> RoomsView {
        RoomsView {
            rooms: self.by_id@.map_values(|r: Room| r@),
            codes: self.codes@,
            next_id: self.next_id,
        }
    }
}

/// The number of a room's join code (`-1` if it has none).
pub open spec fn code_number(r: RoomView) -> int {
    match parse_id(r.join_code) {
        Some(c) => c,
        None => -1,
    }
}

/// The invariant of an application's rooms: each is filed under its own id,
/// which is below the next id; each join code is in use, and no two rooms
/// share one; and every peer table is sound.
pub open spec fn rooms_wf(v: RoomsView) -> bool {
    &&& v.codes.finite()
    &&& forall|c: u32| #[trigger] v.codes.contains(c) ==> c < ID_SPACE
    &&& forall|id: RoomId|
        #[trigger] v.rooms.contains_key(id) ==> {
            &&& v.rooms[id].id == id
            &&& id < v.next_id
            &&& crate::peers::peer_table_wf(v.rooms[id].peers)
            &&& 0 <= code_number(v.rooms[id]) < ID_SPACE
            &&& v.codes.contains(code_number(v.rooms[id]) as u32)
            &&& v.rooms[id].join_code == id_of_code(code_number(v.rooms[id]))
        }
    &&& forall|a: RoomId, b: RoomId|
        #[trigger] v.rooms.contains_key(a) && #[trigger] v.rooms.contains_key(b) && a != b
            ==> code_number(v.rooms[a]) != code_number(v.rooms[b])
    &&& forall|c: u32| #[trigger] v.codes.contains(c) ==> code_in_use(v.rooms, c)
}

/// Whether some room's join code has number `c`.
pub open spec fn code_in_use(rooms: Map<RoomId, RoomView>, c: u32) -> bool {
    exists|id: RoomId| #[trigger] rooms.contains_key(id) && code_number(rooms[id]) == c
}

/// The rooms after room `id`, if there is one, is removed and its join code
/// freed.
pub open spec fn rooms_without(v: RoomsView, id: RoomId) -> RoomsView {
    if v.rooms.contains_key(id) {
        RoomsView {
            rooms: v.rooms.remove(id),
            codes: v.codes.remove(code_number(v.rooms[id]) as u32),
            next_id: v.next_id,
        }
    } else {
        v
    }
}

/// Whether some room of `rooms` has join code `code`.
pub open spec fn has_join_code(rooms: Map<RoomId, RoomView>, code: Seq<char>) -> bool {
    exists|id: RoomId| #[trigger] rooms.contains_key(id) && rooms[id].join_code == code
}

impl Rooms {
    pub open spec fn wf(&self) -> bool {
        rooms_wf(self@)
    }

    /// No room; the first room gets id 1.
    pub fn new() -> (r: Self)
        ensures
            r.wf(),
            r@.rooms == Map::<RoomId, RoomView>::empty(),
            r@.codes == Set::<u32>::empty(),
            r@.next_id == 1,
    {
        let r = Rooms { by_id: HashMap::new(), codes: RoomIds::new(), next_id: 1 };
        proof {
            assert(r@.rooms =~= Map::<RoomId, RoomView>::empty());
        }
        r
    }

    /// Whether another room can be created: a join code is free and the
    /// room ids are not exhausted.
    pub fn can_create(&self) -> (r: bool)
        ensures
            r == (self@.codes.len() < ID_SPACE && self@.next_id < u64::MAX),
    {
        self.codes.len() < ID_SPACE as usize && self.next_id < u64::MAX
    }

    /// Creates a room hosted by `host` with a fresh id and a join code that
    /// no other room has, drawn at random; returns its id.
    pub fn create(&mut self, host: ClientId, is_public: bool, metadata: String) -> (id: RoomId)
        requires
            old(self).wf(),
            old(self)@.codes.len() < ID_SPACE,
            old(self)@.next_id < u64::MAX,
        ensures
            final(self).wf(),
            id == old(self)@.next_id,
            !old(self)@.rooms.contains_key(id),
            final(self)@.next_id == id + 1,
            exists|c: u32|
                {
                    &&& c < ID_SPACE
                    &&& !old(self)@.codes.contains(c)
                    &&& !has_join_code(old(self)@.rooms, id_of_code(c as int))
                    &&& final(self)@.codes == old(self)@.codes.insert(c)
                    &&& final(self)@.rooms == old(self)@.rooms.insert(
                        id,
                        empty_room(id, id_of_code(c as int), host, is_public, metadata@),
                    )
                },
    {
        let ghost v0 = self@;
        let join_code = self.codes.generate();
        let id = self.next_id;
        self.next_id = self.next_id + 1;
        let room = Room::new(id, join_code, host, is_public, metadata);
        proof {
            assert(!v0.rooms.contains_key(id));
        }
        self.by_id.insert(id, room);
        proof {
            let c = choose|c: u32|
                {
                    &&& c < ID_SPACE
                    &&& !v0.codes.contains(c)
                    &&& self@.codes == v0.codes.insert(c)
                    &&& join_code@ == id_of_code(c as int)
                };
            law_parse_id_of_code(c as int);
            let nr = empty_room(id, id_of_code(c as int), host, is_public, metadata@);
            assert(self@.rooms =~= v0.rooms.insert(id, nr));
            assert(code_number(nr) == c);
            assert(!has_join_code(v0.rooms, id_of_code(c as int))) by {
                if has_join_code(v0.rooms, id_of_code(c as int)) {
                    let k = choose|k: RoomId| #[trigger] v0.rooms.contains_key(k) && v0.rooms[k].join_code
                        == id_of_code(c as int);
                    assert(code_number(v0.rooms[k]) == c);
                }
            }
            assert forall|x: RoomId| #[trigger] self@.rooms.contains_key(x) implies {
                &&& self@.rooms[x].id == x
                &&& x < self@.next_id
                &&& crate::peers::peer_table_wf(self@.rooms[x].peers)
                &&& 0 <= code_number(self@.rooms[x]) < ID_SPACE
                &&& self@.codes.contains(code_number(self@.rooms[x]) as u32)
                &&& self@.rooms[x].join_code == id_of_code(code_number(self@.rooms[x]))
            } by {
                if x != id {
                    assert(v0.rooms.contains_key(x));
                }
            }
            assert forall|x: u32| #[trigger] self@.codes.contains(x) implies code_in_use(self@.rooms, x) by {
                if x == c {
                    assert(self@.rooms.contains_key(id) && code_number(self@.rooms[id]) == x);
                } else {
                    assert(v0.codes.contains(x));
                    let k = choose|k: RoomId| #[trigger] v0.rooms.contains_key(k) && code_number(v0.rooms[k]) == x;
                    assert(self@.rooms.contains_key(k) && code_number(self@.rooms[k]) == x);
                }
            }
            assert forall|a: RoomId, b: RoomId|
                #[trigger] self@.rooms.contains_key(a) && #[trigger] self@.rooms.contains_key(b) && a != b
                    implies code_number(self@.rooms[a]) != code_number(self@.rooms[b]) by {
                if a != id && b != id {
                    assert(v0.rooms.contains_key(a));
                    assert(v0.rooms.contains_key(b));
                } else if a == id {
                    assert(v0.rooms.contains_key(b));
                    assert(v0.codes.contains(code_number(v0.rooms[b]) as u32));
                } else {
                    assert(v0.rooms.contains_key(a));
                    assert(v0.codes.contains(code_number(v0.rooms[a]) as u32));
                }
            }
        }
        id
    }

    /// The room with id `id`, if any.
    pub fn get(&self, id: RoomId) -> (r: Option<&Room>)
        ensures
            match r {
                Some(room) => self@.rooms.contains_key(id) && room@ == self@.rooms[id],
                None => !self@.rooms.contains_key(id),
            },
    {
        self.by_id.get(&id)
    }

    /// The ids of the rooms, each once, in no particular order.
    pub fn ids(&self) -> (out: Vec<RoomId>)
        ensures
            out@.to_set() == self@.rooms.dom(),
            out@.no_duplicates(),
    {
        let mut out: Vec<RoomId> = Vec::new();
        let ghost ks = vstd::std_specs::hash::spec_keys_iter(&self.by_id).remaining();
        for k in iter: self.by_id.keys()
            invariant
                iter.seq() == ks,
                out@.len() == iter.index(),
                forall|i: int| 0 <= i < out@.len() ==> out@[i] == *iter.seq()[i],
        {
            out.push(*k);
        }
        proof {
            assert(out@ =~= ks.unref());
            assert(out@.to_set() =~= self@.rooms.dom());
        }
        out
    }

    /// The room whose join code is `join_code`, if any.
    pub fn get_by_jc(&self, join_code: &str) -> (r: Option<&Room>)
        requires
            self.wf(),
        ensures
            match r {
                Some(room) => {
                    &&& self@.rooms.contains_key(room@.id)
                    &&& self@.rooms[room@.id] == room@
                    &&& room@.join_code == join_code@
                },
                None => !has_join_code(self@.rooms, join_code@),
            },
    {
        let ids = self.ids();
        let mut i: usize = 0;
        while i < ids.len()
            invariant
                i <= ids@.len(),
                ids@.to_set() == self@.rooms.dom(),
                self.wf(),
                forall|k: int| 0 <= k < i ==> self@.rooms[#[trigger] ids@[k]].join_code != join_code@,
            decreases ids.len() - i,
        {
            let id = ids[i];
            proof {
                assert(ids@.to_set().contains(id));
            }
            match self.by_id.get(&id) {
                Some(room) => {
                    if str_eq(room.join_code.as_str(), join_code) {
                        proof {
                            assert(self@.rooms[id] == room@);
                            assert(room@.id == id) by {
                                assert(self@.rooms.contains_key(id));
                            }
                        }
                        return Some(room);
                    }
                },
                None => {},
            }
            i += 1;
        }
        proof {
            if has_join_code(self@.rooms, join_code@) {
                let k = choose|k: RoomId| #[trigger] self@.rooms.contains_key(k) && self@.rooms[k].join_code
                    == join_code@;
                assert(ids@.to_set().contains(k));
                let x = choose|x: int| 0 <= x < ids@.len() && ids@[x] == k;
                assert(self@.rooms[ids@[x]].join_code != join_code@);
            }
        }
        None
    }

    /// Gives `client` the next peer identifier of room `id`, if the room
    /// exists, and returns the identifier.
    pub fn add_peer(&mut self, id: RoomId, client: ClientId) -> (r: Option<i32>)
        requires
            old(self).wf(),
            old(self)@.rooms.contains_key(id) ==> old(self)@.rooms[id].peers.next < i32::MAX,
        ensures
            final(self).wf(),
            match r {
                Some(g) => {
                    &&& old(self)@.rooms.contains_key(id)
                    &&& g == old(self)@.rooms[id].peers.next
                    &&& final(self)@ == (RoomsView {
                        rooms: old(self)@.rooms.insert(id, with_peer(old(self)@.rooms[id], client)),
                        ..old(self)@
                    })
                },
                None => !old(self)@.rooms.contains_key(id) && final(self)@ == old(self)@,
            },
    {
        let ghost v0 = self@;
        match self.by_id.remove(&id) {
            None => {
                proof {
                    assert(self@.rooms =~= v0.rooms);
                }
                None
            },
            Some(mut room) => {
                proof {
                    assert(v0.rooms.contains_key(id));
                    assert(room@ == v0.rooms[id]);
                }
                let g = room.add_peer(client);
                self.by_id.insert(id, room);
                proof {
                    assert(self@.rooms =~= v0.rooms.insert(id, with_peer(v0.rooms[id], client)));
                    assert(code_number(with_peer(v0.rooms[id], client)) == code_number(v0.rooms[id]));
                    assert forall|a: RoomId, b: RoomId|
                        #[trigger] self@.rooms.contains_key(a) && #[trigger] self@.rooms.contains_key(b)
                            && a != b implies code_number(self@.rooms[a]) != code_number(self@.rooms[b]) by {
                        assert(v0.rooms.contains_key(a) && v0.rooms.contains_key(b));
                    }
                    assert forall|x: RoomId| #[trigger] self@.rooms.contains_key(x) implies {
                        &&& self@.rooms[x].id == x
                        &&& x < self@.next_id
                        &&& crate::peers::peer_table_wf(self@.rooms[x].peers)
                        &&& 0 <= code_number(self@.rooms[x]) < ID_SPACE
                        &&& self@.codes.contains(code_number(self@.rooms[x]) as u32)
                        &&& self@.rooms[x].join_code == id_of_code(code_number(self@.rooms[x]))
                    } by {
                        assert(v0.rooms.contains_key(x));
                    }
                }
                Some(g)
            },
        }
    }

    /// Takes `client` out of room `id`; says whether the room exists.
    pub fn remove_peer(&mut self, id: RoomId, client: ClientId) -> (r: bool)
        requires
            old(self).wf(),
        ensures
            final(self).wf(),
            r == old(self)@.rooms.contains_key(id),
            r ==> final(self)@ == (RoomsView {
                rooms: old(self)@.rooms.insert(id, without_peer(old(self)@.rooms[id], client)),
                ..old(self)@
            }),
            !r ==> final(self)@ == old(self)@,
    {
        let ghost v0 = self@;
        match self.by_id.remove(&id) {
            None => {
                proof {
                    assert(self@.rooms =~= v0.rooms);
                }
                false
            },
            Some(mut room) => {
                proof {
                    assert(v0.rooms.contains_key(id));
                    assert(room@ == v0.rooms[id]);
                }
                room.remove_peer(client);
                self.by_id.insert(id, room);
                proof {
                    assert(self@.rooms =~= v0.rooms.insert(id, without_peer(v0.rooms[id], client)));
                    assert(code_number(without_peer(v0.rooms[id], client)) == code_number(v0.rooms[id]));
                    assert forall|a: RoomId, b: RoomId|
                        #[trigger] self@.rooms.contains_key(a) && #[trigger] self@.rooms.contains_key(b)
                            && a != b implies code_number(self@.rooms[a]) != code_number(self@.rooms[b]) by {
                        assert(v0.rooms.contains_key(a) && v0.rooms.contains_key(b));
                    }
                    assert forall|x: RoomId| #[trigger] self@.rooms.contains_key(x) implies {
                        &&& self@.rooms[x].id == x
                        &&& x < self@.next_id
                        &&& crate::peers::peer_table_wf(self@.rooms[x].peers)
                        &&& 0 <= code_number(self@.rooms[x]) < ID_SPACE
                        &&& self@.codes.contains(code_number(self@.rooms[x]) as u32)
                        &&& self@.rooms[x].join_code == id_of_code(code_number(self@.rooms[x]))
                    } by {
                        assert(v0.rooms.contains_key(x));
                    }
                }
                true
            },
        }
    }

    /// Replaces the metadata of room `id`; says whether the room exists.
    pub fn set_metadata(&mut self, id: RoomId, metadata: String) -> (r: bool)
        requires
            old(self).wf(),
        ensures
            final(self).wf(),
            r == old(self)@.rooms.contains_key(id),
            r ==> final(self)@ == (RoomsView {
                rooms: old(self)@.rooms.insert(id, RoomView { metadata: metadata@, ..old(self)@.rooms[id] }),
                ..old(self)@
            }),
            !r ==> final(self)@ == old(self)@,
    {
        let ghost v0 = self@;
        match self.by_id.remove(&id) {
            None => {
                proof {
                    assert(self@.rooms =~= v0.rooms);
                }
                false
            },
            Some(mut room) => {
                proof {
                    assert(room@ == v0.rooms[id]);
                }
                room.metadata = metadata;
                self.by_id.insert(id, room);
                proof {
                    let nr = RoomView { metadata: metadata@, ..v0.rooms[id] };
                    assert(self@.rooms =~= v0.rooms.insert(id, nr));
                    assert(code_number(nr) == code_number(v0.rooms[id]));
                    assert forall|a: RoomId, b: RoomId|
                        #[trigger] self@.rooms.contains_key(a) && #[trigger] self@.rooms.contains_key(b)
                            && a != b implies code_number(self@.rooms[a]) != code_number(self@.rooms[b]) by {
                        assert(v0.rooms.contains_key(a) && v0.rooms.contains_key(b));
                    }
                    assert forall|x: RoomId| #[trigger] self@.rooms.contains_key(x) implies {
                        &&& self@.rooms[x].id == x
                        &&& x < self@.next_id
                        &&& crate::peers::peer_table_wf(self@.rooms[x].peers)
                        &&& 0 <= code_number(self@.rooms[x]) < ID_SPACE
                        &&& self@.codes.contains(code_number(self@.rooms[x]) as u32)
                        &&& self@.rooms[x].join_code == id_of_code(code_number(self@.rooms[x]))
                    } by {
                        assert(v0.rooms.contains_key(x));
                    }
                }
                true
            },
        }
    }

    /// Removes room `id`, if it exists, and frees its join code.
    pub fn remove(&mut self, id: RoomId) -> (r: Option<Room>)
        requires
            old(self).wf(),
        ensures
            final(self).wf(),
            final(self)@ == rooms_without(old(self)@, id),
            match r {
                Some(room) => {
                    &&& old(self)@.rooms.contains_key(id)
                    &&& room@ == old(self)@.rooms[id]
                    &&& final(self)@.codes == old(self)@.codes.remove(code_number(room@) as u32)
                },
                None => !old(self)@.rooms.contains_key(id) && final(self)@ == old(self)@,
            },
    {
        let ghost v0 = self@;
        match self.by_id.remove(&id) {
            None => {
                proof {
                    assert(self@.rooms =~= v0.rooms);
                }
                None
            },
            Some(room) => {
                proof {
                    assert(v0.rooms.contains_key(id));
                    assert(room@ == v0.rooms[id]);
                    law_parse_id_of_code(code_number(room@));
                }
                self.codes.free(room.join_code.as_str());
                proof {
                    assert(self@.rooms =~= v0.rooms.remove(id));
                    assert(self@.codes =~= v0.codes.remove(code_number(v0.rooms[id]) as u32));
                    assert forall|x: RoomId| #[trigger] self@.rooms.contains_key(x) implies {
                        &&& self@.rooms[x].id == x
                        &&& x < self@.next_id
                        &&& crate::peers::peer_table_wf(self@.rooms[x].peers)
                        &&& 0 <= code_number(self@.rooms[x]) < ID_SPACE
                        &&& self@.codes.contains(code_number(self@.rooms[x]) as u32)
                        &&& self@.rooms[x].join_code == id_of_code(code_number(self@.rooms[x]))
                    } by {
                        assert(v0.rooms.contains_key(x));
                        assert(v0.rooms.contains_key(id));
                        assert(code_number(v0.rooms[x]) != code_number(v0.rooms[id]));
                    }
                    assert forall|a: RoomId, b: RoomId|
                        #[trigger] self@.rooms.contains_key(a) && #[trigger] self@.rooms.contains_key(b)
                            && a != b implies code_number(self@.rooms[a]) != code_number(self@.rooms[b]) by {
                        assert(v0.rooms.contains_key(a) && v0.rooms.contains_key(b));
                    }
                }
                Some(room)
            },
        }
    }

    /// What a room list says of each public room, in no particular order.
    pub fn public_infos(&self) -> (out: Vec<RoomInfo>)
        requires
            self.wf(),
        ensures
            exists|ts: Seq<RoomId>|
                #![trigger infos_of(self@.rooms, ts)]
                {
                    &&& ts.no_duplicates()
                    &&& ts.to_set() == public_ids(self@.rooms)
                    &&& out@.map_values(|i: RoomInfo| i@) == infos_of(self@.rooms, ts)
                },
    {
        let ids = self.ids();
        let mut out: Vec<RoomInfo> = Vec::new();
        let ghost mut ts: Seq<RoomId> = Seq::empty();
        let mut k: usize = 0;
        proof {
            assert(ts.to_set() =~= Set::<RoomId>::empty());
            assert(ids@.take(0).to_set() =~= Set::<RoomId>::empty());
        }
        while k < ids.len()
            invariant
                k <= ids@.len(),
                ids@.no_duplicates(),
                ids@.to_set() == self@.rooms.dom(),
                self.wf(),
                ts.no_duplicates(),
                ts.to_set() == ids@.take(k as int).to_set().filter(|i: RoomId| self@.rooms[i].is_public),
                out@.map_values(|i: RoomInfo| i@) == infos_of(self@.rooms, ts),
            decreases ids.len() - k,
        {
            let id = ids[k];
            let ghost t0 = ids@.take(k as int);
            proof {
                assert(ids@.take(k + 1) =~= t0.push(id));
                assert(!t0.contains(id)) by {
                    if t0.contains(id) {
                        let y = choose|y: int| 0 <= y < t0.len() && t0[y] == id;
                        assert(ids@[y] == ids@[k as int]);
                    }
                }
                assert(ids@.to_set().contains(id));
            }
            match self.by_id.get(&id) {
                Some(room) => {
                    proof {
                        assert(room@ == self@.rooms[id]);
                    }
                    if room.is_public {
                        let ghost before = out@;
                        let info = room.to_info();
                        out.push(info);
                        proof {
                            assert(!ts.contains(id)) by {
                                if ts.contains(id) {
                                    assert(ts.to_set().contains(id));
                                }
                            }
                            let nts = ts.push(id);
                            assert(nts.no_duplicates()) by {
                                assert forall|a: int, b: int|
                                    0 <= a < nts.len() && 0 <= b < nts.len() && a != b implies nts[a] != nts[b] by {
                                    if a < ts.len() && b < ts.len() {
                                        assert(nts[a] == ts[a] && nts[b] == ts[b]);
                                    } else if a < ts.len() {
                                        assert(ts.contains(nts[a]));
                                    } else if b < ts.len() {
                                        assert(ts.contains(nts[b]));
                                    }
                                }
                            }
                            ts.lemma_push_to_set_commute(id);
                            t0.lemma_push_to_set_commute(id);
                            assert(nts.to_set() =~= ts.to_set().insert(id));
                            assert(ids@.take(k + 1).to_set() =~= t0.to_set().insert(id));
                            assert(nts.to_set() =~= ids@.take(k + 1).to_set().filter(
                                |i: RoomId| self@.rooms[i].is_public,
                            ));
                            assert(out@.map_values(|i: RoomInfo| i@) =~= before.map_values(|i: RoomInfo| i@).push(
                                room_info(self@.rooms[id]),
                            ));
                            assert(infos_of(self@.rooms, nts) =~= infos_of(self@.rooms, ts).push(
                                room_info(self@.rooms[id]),
                            ));
                            ts = nts;
                        }
                    } else {
                        proof {
                            t0.lemma_push_to_set_commute(id);
                            assert(ids@.take(k + 1).to_set() =~= t0.to_set().insert(id));
                            assert(ts.to_set() =~= ids@.take(k + 1).to_set().filter(
                                |i: RoomId| self@.rooms[i].is_public,
                            ));
                        }
                    }
                },
                None => {
                    proof {
                        assert(false);
                    }
                },
            }
            k += 1;
        }
        proof {
            assert(ids@.take(ids@.len() as int) =~= ids@);
            assert(ts.to_set() =~= public_ids(self@.rooms));
        }
        out
    }

    /// The members of every room, room after room (a client in several
    /// rooms comes once for each).
    pub fn member_list(&self) -> (out: Vec<ClientId>)
        ensures
            out@.to_set() == members_of(self@.rooms),
    {
        let ids = self.ids();
        let mut out: Vec<ClientId> = Vec::new();
        let mut j: usize = 0;
        proof {
            assert(out@.to_set() =~= Set::<ClientId>::empty());
        }
        while j < ids.len()
            invariant
                j <= ids@.len(),
                ids@.to_set() == self@.rooms.dom(),
                out@.to_set() == Set::new(
                    |c: ClientId|
                        exists|r: RoomId|
                            #[trigger] ids@.take(j as int).contains(r) && self@.rooms[r].peers.clients.contains_key(c),
                ),
            decreases ids.len() - j,
        {
            let id = ids[j];
            let ghost before = out@;
            proof {
                assert(ids@.to_set().contains(id));
            }
            match self.by_id.get(&id) {
                Some(room) => {
                    let members = room.get_clients();
                    append_ids(&mut out, &members);
                    proof {
                        assert(self@.rooms.contains_key(id));
                        assert(self@.rooms[id] == room@);
                        vstd::seq_lib::seq_to_set_distributes_over_add(before, members@);
                        let t0 = ids@.take(j as int);
                        let t1 = ids@.take(j + 1);
                        assert(t1 =~= t0.push(id));
                        let tgt = Set::new(
                            |c: ClientId|
                                exists|r: RoomId|
                                    #[trigger] t1.contains(r) && self@.rooms[r].peers.clients.contains_key(c),
                        );
                        let prev = Set::new(
                            |c: ClientId|
                                exists|r: RoomId|
                                    #[trigger] t0.contains(r) && self@.rooms[r].peers.clients.contains_key(c),
                        );
                        assert(before.to_set() == prev);
                        assert(out@.to_set() == before.to_set() + members@.to_set());
                        assert forall|c: ClientId| out@.to_set().contains(c) implies tgt.contains(c) by {
                            if prev.contains(c) {
                                let r = choose|r: RoomId| #[trigger] t0.contains(r) && self@.rooms[r].peers.clients.contains_key(c);
                                let x = choose|x: int| 0 <= x < t0.len() && t0[x] == r;
                                assert(t1[x] == r);
                                assert(t1.contains(r));
                            } else {
                                assert(members@.to_set().contains(c));
                                assert(t1[j as int] == id);
                                assert(t1.contains(id));
                                assert(self@.rooms[id].peers.clients.contains_key(c));
                            }
                        }
                        assert forall|c: ClientId| tgt.contains(c) implies out@.to_set().contains(c) by {
                            let r = choose|r: RoomId| #[trigger] t1.contains(r) && self@.rooms[r].peers.clients.contains_key(c);
                            let x = choose|x: int| 0 <= x < t1.len() && t1[x] == r;
                            if x < j {
                                assert(t0[x] == r);
                                assert(t0.contains(r));
                                assert(prev.contains(c));
                            } else {
                                assert(r == id);
                                assert(members@.to_set().contains(c));
                            }
                        }
                        assert(out@.to_set() =~= Set::new(
                            |c: ClientId|
                                exists|r: RoomId|
                                    #[trigger] t1.contains(r) && self@.rooms[r].peers.clients.contains_key(c),
                        ));
                    }
                },
                None => {
                    proof {
                        assert(false);
                    }
                },
            }
            j += 1;
        }
        proof {
            assert(ids@.take(ids@.len() as int) =~= ids@);
            assert forall|c: ClientId| out@.to_set().contains(c) <==> members_of(self@.rooms).contains(c) by {
                if members_of(self@.rooms).contains(c) {
                    let r = choose|r: RoomId| #[trigger] self@.rooms.contains_key(r) && self@.rooms[r].peers.clients.contains_key(c);
                    assert(ids@.to_set().contains(r));
                }
                if out@.to_set().contains(c) {
                    let r = choose|r: RoomId| #[trigger] ids@.contains(r) && self@.rooms[r].peers.clients.contains_key(c);
                    assert(ids@.to_set().contains(r));
                    assert(self@.rooms.contains_key(r));
                }
            }
            assert(out@.to_set() =~= members_of(self@.rooms));
        }
        out
    }

    /// Closes every room, freeing every join code; room ids keep counting
    /// from where they were.
    pub fn clear(&mut self)
        requires
            old(self).wf(),
        ensures
            final(self).wf(),
            final(self)@ == (RoomsView {
                rooms: Map::empty(),
                codes: Set::empty(),
                next_id: old(self)@.next_id,
            }),
    {
        self.by_id = HashMap::new();
        self.codes = RoomIds::new();
        proof {
            assert(self@.rooms =~= Map::<RoomId, RoomView>::empty());
        }
    }
}

/// The clients that are members of some room of `rooms`.
pub open spec fn members_of(rooms: Map<RoomId, RoomView>) -> Set<ClientId> {
    Set::new(
        |c: ClientId|
            exists|r: RoomId| #[trigger] rooms.contains_key(r) && rooms[r].peers.clients.contains_key(c),
    )
}

/// Appends the items of `v` to `out`.
pub fn append_ids(out: &mut Vec<ClientId>, v: &Vec<ClientId>)
    ensures
        final(out)@ == old(out)@ + v@,
{
    let mut k: usize = 0;
    while k < v.len()
        invariant
            k <= v@.len(),
            out@ == old(out)@ + v@.take(k as int),
        decreases v.len() - k,
    {
        out.push(v[k]);
        proof {
            assert(v@.take(k + 1) =~= v@.take(k as int).push(v@[k as int]));
            assert(out@ =~= old(out)@ + v@.take(k + 1));
        }
        k += 1;
    }
    proof {
        assert(v@.take(v@.len() as int) =~= v@);
    }
}

/// The ids of the public rooms.
pub open spec fn public_ids(rooms: Map<RoomId, RoomView>) -> Set<RoomId> {
    rooms.dom().filter(|i: RoomId| rooms[i].is_public)
}

/// What a room list says of the rooms `ts`, in that order.
pub open spec fn infos_of(rooms: Map<RoomId, RoomView>, ts: Seq<RoomId>) -> Seq<RoomInfoView> {
    ts.map_values(|i: RoomId| room_info(rooms[i]))
}

/// A join code names at most one room of an application.
pub proof fn law_join_codes_identify_rooms(v: RoomsView, a: RoomId, b: RoomId)
    requires
        rooms_wf(v),
        v.rooms.contains_key(a),
        v.rooms.contains_key(b),
        v.rooms[a].join_code == v.rooms[b].join_code,
    ensures
        a == b,
{
}

} // verus!
