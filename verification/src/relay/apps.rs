//! The applications known to the relay, by id: each was created the first
//! time a client authenticated with its token, and holds its rooms.
use vstd::prelude::*;
use std::collections::HashMap;
use crate::peers::ClientId;
use crate::relay::ids::{AppId, RoomId};
use crate::relay::rooms::{append_ids, members_of, empty_room, has_join_code, rooms_wf, rooms_without, with_peer, without_peer, Room, Rooms, RoomsView, RoomView};
use crate::relay::room::{id_of_code, ID_SPACE};
use crate::text::str_eq;
use vstd::std_specs::iter::IteratorSpec;

verus! {

broadcast use vstd::std_specs::hash::group_hash_axioms;

/// An application: its id, the token clients present, and its rooms.
pub struct App {
    pub id: AppId,
    pub token: String,
    pub rooms: Rooms,
}

pub struct AppView {
    pub id: AppId,
    pub token: Seq<char>,
    pub rooms: RoomsView,
}

impl View for App {
    type V = AppView;

    open spec fn view(&self) -> AppView {
        AppView { id: self.id, token: self.token@, rooms: self.rooms@ }
    }
}

/// All applications, by id.
pub struct Apps {
    by_id: HashMap<AppId, App>,
    next_id: AppId,
}

pub struct AppsView {
    pub apps: Map<AppId, AppView>,
    /// The id the next application gets.
    pub next_id: AppId,
}

impl View for Apps {
    type V = AppsView;

    closed spec fn view(&self) -> AppsView {
        AppsView { apps: self.by_id@.map_values(|a: App| a@), next_id: self.next_id }
    }
}

/// The invariant: each application is filed under its own id, which is
/// below the next id; no two share a token; each one's rooms are sound.
pub open spec fn apps_wf(v: AppsView) -> bool {
    &&& forall|id: AppId|
        #[trigger] v.apps.contains_key(id) ==> {
            &&& v.apps[id].id == id
            &&& id < v.next_id
            &&& rooms_wf(v.apps[id].rooms)
        }
    &&& forall|a: AppId, b: AppId|
        #[trigger] v.apps.contains_key(a) && #[trigger] v.apps.contains_key(b) && a != b
            ==> v.apps[a].token != v.apps[b].token
}

/// A new application: no room yet, no join code in use, and room ids
/// starting at 1.
pub open spec fn fresh_app(id: AppId, token: Seq<char>) -> AppView {
    AppView {
        id,
        token,
        rooms: RoomsView { rooms: Map::empty(), codes: Set::empty(), next_id: 1 },
    }
}

/// The application with token `token` (meaningful when there is one).
pub open spec fn token_owner(apps: Map<AppId, AppView>, token: Seq<char>) -> AppId {
    choose|id: AppId| #[trigger] apps.contains_key(id) && apps[id].token == token
}

/// The clients that are members of some room of some application.
pub open spec fn app_members(apps: Map<AppId, AppView>) -> Set<ClientId> {
    Set::new(
        |c: ClientId|
            exists|a: AppId| #[trigger] apps.contains_key(a) && members_of(apps[a].rooms.rooms).contains(c),
    )
}

/// The applications once every room is closed.
pub open spec fn without_rooms(v: AppsView) -> AppsView {
    AppsView {
        apps: v.apps.map_values(
            |a: AppView|
                AppView {
                    rooms: RoomsView { rooms: Map::empty(), codes: Set::empty(), next_id: a.rooms.next_id },
                    ..a
                },
        ),
        next_id: v.next_id,
    }
}

/// Whether some application has token `token`.
pub open spec fn has_token(apps: Map<AppId, AppView>, token: Seq<char>) -> bool {
    exists|id: AppId| #[trigger] apps.contains_key(id) && apps[id].token == token
}

/// The applications after the rooms of `id` became `rooms`.
pub open spec fn with_app_rooms(v: AppsView, id: AppId, rooms: RoomsView) -> AppsView {
    AppsView { apps: v.apps.insert(id, AppView { rooms, ..v.apps[id] }), ..v }
}

proof fn lemma_with_app_rooms(v: AppsView, id: AppId, rooms: RoomsView)
    requires
        apps_wf(v),
        v.apps.contains_key(id),
        rooms_wf(rooms),
    ensures
        apps_wf(with_app_rooms(v, id, rooms)),
{
    let w = with_app_rooms(v, id, rooms);
    assert forall|x: AppId| #[trigger] w.apps.contains_key(x) implies {
        &&& w.apps[x].id == x
        &&& x < w.next_id
        &&& rooms_wf(w.apps[x].rooms)
    } by {
        assert(v.apps.contains_key(x));
    }
    assert forall|a: AppId, b: AppId|
        #[trigger] w.apps.contains_key(a) && #[trigger] w.apps.contains_key(b) && a != b implies w.apps[a].token
        != w.apps[b].token by {
        assert(v.apps.contains_key(a) && v.apps.contains_key(b));
    }
}

impl Apps {
    pub open spec fn wf(&self) -> bool {
        apps_wf(self@)
    }

    /// No application; the first one gets id 1.
    pub fn new() -> (r: Self)
        ensures
            r.wf(),
            r@.apps == Map::<AppId, AppView>::empty(),
            r@.next_id == 1,
    {
        let r = Apps { by_id: HashMap::new(), next_id: 1 };
        proof {
            assert(r@.apps =~= Map::<AppId, AppView>::empty());
        }
        r
    }

    /// The application `id`, if any.
    pub fn get(&self, id: AppId) -> (r: Option<&App>)
        ensures
            match r {
                Some(app) => self@.apps.contains_key(id) && app@ == self@.apps[id],
                None => !self@.apps.contains_key(id),
            },
    {
        self.by_id.get(&id)
    }

    /// The ids of the applications, each once, in no particular order.
    pub fn ids(&self) -> (out: Vec<AppId>)
        ensures
            out@.to_set() == self@.apps.dom(),
            out@.no_duplicates(),
    {
        let mut out: Vec<AppId> = Vec::new();
        let ghost ks = vstd::std_specs::hash::spec_keys_iter(&self.by_id).remaining();
        for k in iter: self.by_id.keys()
            invariant
                iter.seq() == ks,
                out@.len() == iter.index(),
                forall|i: int| 0 <= i < out@.len() ==> out@[i] == *iter.seq()[i],
        {
            out.push(*k);
        }
        proof {
            assert(out@ =~= ks.unref());
            assert(out@.to_set() =~= self@.apps.dom());
        }
        out
    }

    /// The application whose token is `token`, if any.
    pub fn get_by_token(&self, token: &str) -> (r: Option<&App>)
        requires
            self.wf(),
        ensures
            match r {
                Some(app) => {
                    &&& self@.apps.contains_key(app@.id)
                    &&& self@.apps[app@.id] == app@
                    &&& app@.token == token@
                },
                None => !has_token(self@.apps, token@),
            },
    {
        let ids = self.ids();
        let mut i: usize = 0;
        while i < ids.len()
            invariant
                i <= ids@.len(),
                ids@.to_set() == self@.apps.dom(),
                self.wf(),
                forall|k: int| 0 <= k < i ==> self@.apps[#[trigger] ids@[k]].token != token@,
            decreases ids.len() - i,
        {
            let id = ids[i];
            proof {
                assert(ids@.to_set().contains(id));
            }
            match self.by_id.get(&id) {
                Some(app) => {
                    if str_eq(app.token.as_str(), token) {
                        proof {
                            assert(self@.apps.contains_key(id));
                        }
                        return Some(app);
                    }
                },
                None => {},
            }
            i += 1;
        }
        proof {
            if has_token(self@.apps, token@) {
                let k = choose|k: AppId| #[trigger] self@.apps.contains_key(k) && self@.apps[k].token == token@;
                assert(ids@.to_set().contains(k));
                let x = choose|x: int| 0 <= x < ids@.len() && ids@[x] == k;
                assert(self@.apps[ids@[x]].token != token@);
            }
        }
        None
    }

    /// Whether another application can be created.
    pub fn can_create(&self) -> (r: bool)
        ensures
            r == (self@.next_id < u64::MAX),
    {
        self.next_id < u64::MAX
    }

    /// Creates an application with token `token` (which no application
    /// has) and no room; returns its id.
    pub fn create(&mut self, token: String) -> (id: AppId)
        requires
            old(self).wf(),
            old(self)@.next_id < u64::MAX,
            !has_token(old(self)@.apps, token@),
        ensures
            final(self).wf(),
            id == old(self)@.next_id,
            !old(self)@.apps.contains_key(id),
            final(self)@.next_id == id + 1,
            final(self)@.apps == old(self)@.apps.insert(id, fresh_app(id, token@)),
    {
        let ghost v0 = self@;
        let id = self.next_id;
        self.next_id = self.next_id + 1;
        proof {
            assert(!v0.apps.contains_key(id));
        }
        self.by_id.insert(id, App { id, token, rooms: Rooms::new() });
        proof {
            assert(self@.apps[id].rooms.rooms =~= Map::<RoomId, RoomView>::empty());
            assert(self@.apps =~= v0.apps.insert(id, fresh_app(id, token@)));
            assert forall|x: AppId| #[trigger] self@.apps.contains_key(x) implies {
                &&& self@.apps[x].id == x
                &&& x < self@.next_id
                &&& rooms_wf(self@.apps[x].rooms)
            } by {
                if x != id {
                    assert(v0.apps.contains_key(x));
                }
            }
            assert forall|a: AppId, b: AppId|
                #[trigger] self@.apps.contains_key(a) && #[trigger] self@.apps.contains_key(b) && a != b
                    implies self@.apps[a].token != self@.apps[b].token by {
                if a != id && b != id {
                    assert(v0.apps.contains_key(a) && v0.apps.contains_key(b));
                } else if a == id {
                    assert(v0.apps.contains_key(b));
                } else {
                    assert(v0.apps.contains_key(a));
                }
            }
        }
        id
    }

    /// Whether application `id` can have another room.
    pub fn can_create_room(&self, id: AppId) -> (r: bool)
        ensures
            r == (self@.apps.contains_key(id) && self@.apps[id].rooms.codes.len() < ID_SPACE
                && self@.apps[id].rooms.next_id < u64::MAX),
    {
        match self.by_id.get(&id) {
            Some(app) => app.rooms.can_create(),
            None => false,
        }
    }

    /// Creates a room of application `app_id` hosted by `host`, with a
    /// fresh id and a join code no other room of the application has, and
    /// seats the host as its first peer; returns the room's id and the
    /// host's peer identifier, or `None` if there is no such application.
    pub fn create_room(&mut self, app_id: AppId, host: ClientId, is_public: bool, metadata: String) -> (r:
        Option<(RoomId, i32)>)
        requires
            old(self).wf(),
            old(self)@.apps.contains_key(app_id) ==> old(self)@.apps[app_id].rooms.codes.len() < ID_SPACE
                && old(self)@.apps[app_id].rooms.next_id < u64::MAX,
        ensures
            final(self).wf(),
            match r {
                Some((id, pid)) => {
                    let old_rooms = old(self)@.apps[app_id].rooms;
                    &&& old(self)@.apps.contains_key(app_id)
                    &&& id == old_rooms.next_id
                    &&& !old_rooms.rooms.contains_key(id)
                    &&& pid == 1
                    &&& exists|c: u32|
                        #![trigger id_of_code(c as int)]
                        {
                            &&& c < ID_SPACE
                            &&& !has_join_code(old_rooms.rooms, id_of_code(c as int))
                            &&& final(self)@ == with_app_rooms(
                                old(self)@,
                                app_id,
                                RoomsView {
                                    rooms: old_rooms.rooms.insert(
                                        id,
                                        with_peer(
                                            empty_room(id, id_of_code(c as int), host, is_public, metadata@),
                                            host,
                                        ),
                                    ),
                                    codes: old_rooms.codes.insert(c),
                                    next_id: (id + 1) as u64,
                                },
                            )
                        }
                },
                None => !old(self)@.apps.contains_key(app_id) && final(self)@ == old(self)@,
            },
    {
        let ghost v0 = self@;
        match self.by_id.remove(&app_id) {
            None => {
                proof {
                    assert(self@.apps =~= v0.apps);
                }
                None
            },
            Some(mut app) => {
                proof {
                    assert(v0.apps.contains_key(app_id));
                    assert(app@ == v0.apps[app_id]);
                }
                let ghost rs = app.rooms@;
                let id = app.rooms.create(host, is_public, metadata);
                let ghost rs1 = app.rooms@;
                let pid = match app.rooms.add_peer(id, host) {
                    Some(g) => g,
                    None => {
                        proof {
                            assert(false);
                        }
                        0
                    },
                };
                let ghost new_rooms = app.rooms@;
                self.by_id.insert(app_id, app);
                proof {
                    assert(self@.apps =~= with_app_rooms(v0, app_id, new_rooms).apps);
                    lemma_with_app_rooms(v0, app_id, new_rooms);
                    let c = choose|c: u32|
                        {
                            &&& c < ID_SPACE
                            &&& !rs.codes.contains(c)
                            &&& !has_join_code(rs.rooms, id_of_code(c as int))
                            &&& rs1.codes == rs.codes.insert(c)
                            &&& rs1.rooms == rs.rooms.insert(
                                id,
                                empty_room(id, id_of_code(c as int), host, is_public, metadata@),
                            )
                        };
                    assert(new_rooms.rooms =~= rs.rooms.insert(
                        id,
                        with_peer(empty_room(id, id_of_code(c as int), host, is_public, metadata@), host),
                    ));
                    assert(new_rooms == RoomsView {
                        rooms: rs.rooms.insert(
                            id,
                            with_peer(empty_room(id, id_of_code(c as int), host, is_public, metadata@), host),
                        ),
                        codes: rs.codes.insert(c),
                        next_id: (id + 1) as u64,
                    });
                }
                Some((id, pid))
            },
        }
    }

    /// Gives `client` the next peer identifier of room `room_id` of
    /// application `app_id`, if both exist, and returns it.
    pub fn add_peer(&mut self, app_id: AppId, room_id: RoomId, client: ClientId) -> (r: Option<i32>)
        requires
            old(self).wf(),
            old(self)@.apps.contains_key(app_id) && old(self)@.apps[app_id].rooms.rooms.contains_key(room_id)
                ==> old(self)@.apps[app_id].rooms.rooms[room_id].peers.next < i32::MAX,
        ensures
            final(self).wf(),
            match r {
                Some(g) => {
                    let rs = old(self)@.apps[app_id].rooms;
                    &&& old(self)@.apps.contains_key(app_id)
                    &&& rs.rooms.contains_key(room_id)
                    &&& g == rs.rooms[room_id].peers.next
                    &&& final(self)@ == with_app_rooms(
                        old(self)@,
                        app_id,
                        RoomsView { rooms: rs.rooms.insert(room_id, with_peer(rs.rooms[room_id], client)), ..rs },
                    )
                },
                None => !(old(self)@.apps.contains_key(app_id) && old(self)@.apps[app_id].rooms.rooms.contains_key(
                    room_id,
                )) && final(self)@ == old(self)@,
            },
    {
        let ghost v0 = self@;
        match self.by_id.remove(&app_id) {
            None => {
                proof {
                    assert(self@.apps =~= v0.apps);
                }
                None
            },
            Some(mut app) => {
                proof {
                    assert(v0.apps.contains_key(app_id));
                    assert(app@ == v0.apps[app_id]);
                }
                let r = app.rooms.add_peer(room_id, client);
                let ghost new_rooms = app.rooms@;
                self.by_id.insert(app_id, app);
                proof {
                    lemma_with_app_rooms(v0, app_id, new_rooms);
                    if r.is_none() {
                        assert(new_rooms == v0.apps[app_id].rooms);
                        assert(self@.apps =~= v0.apps);
                    } else {
                        assert(self@.apps =~= with_app_rooms(v0, app_id, new_rooms).apps);
                    }
                }
                r
            },
        }
    }

    /// Takes `client` out of room `room_id` of application `app_id`; says
    /// whether both exist.
    pub fn remove_peer(&mut self, app_id: AppId, room_id: RoomId, client: ClientId) -> (r: bool)
        requires
            old(self).wf(),
        ensures
            final(self).wf(),
            r == (old(self)@.apps.contains_key(app_id) && old(self)@.apps[app_id].rooms.rooms.contains_key(
                room_id,
            )),
            r ==> {
                let rs = old(self)@.apps[app_id].rooms;
                final(self)@ == with_app_rooms(
                    old(self)@,
                    app_id,
                    RoomsView { rooms: rs.rooms.insert(room_id, without_peer(rs.rooms[room_id], client)), ..rs },
                )
            },
            !r ==> final(self)@ == old(self)@,
    {
        let ghost v0 = self@;
        match self.by_id.remove(&app_id) {
            None => {
                proof {
                    assert(self@.apps =~= v0.apps);
                }
                false
            },
            Some(mut app) => {
                proof {
                    assert(v0.apps.contains_key(app_id));
                    assert(app@ == v0.apps[app_id]);
                }
                let r = app.rooms.remove_peer(room_id, client);
                let ghost new_rooms = app.rooms@;
                self.by_id.insert(app_id, app);
                proof {
                    lemma_with_app_rooms(v0, app_id, new_rooms);
                    if !r {
                        assert(self@.apps =~= v0.apps);
                    } else {
                        assert(self@.apps =~= with_app_rooms(v0, app_id, new_rooms).apps);
                    }
                }
                r
            },
        }
    }

    /// Replaces the metadata of room `room_id` of application `app_id`;
    /// says whether the room exists.
    pub fn set_metadata(&mut self, app_id: AppId, room_id: RoomId, metadata: String) -> (r: bool)
        requires
            old(self).wf(),
        ensures
            final(self).wf(),
            r == (old(self)@.apps.contains_key(app_id) && old(self)@.apps[app_id].rooms.rooms.contains_key(
                room_id,
            )),
            r ==> {
                let rs = old(self)@.apps[app_id].rooms;
                final(self)@ == with_app_rooms(
                    old(self)@,
                    app_id,
                    RoomsView {
                        rooms: rs.rooms.insert(room_id, RoomView { metadata: metadata@, ..rs.rooms[room_id] }),
                        ..rs
                    },
                )
            },
            !r ==> final(self)@ == old(self)@,
    {
        let ghost v0 = self@;
        match self.by_id.remove(&app_id) {
            None => {
                proof {
                    assert(self@.apps =~= v0.apps);
                }
                false
            },
            Some(mut app) => {
                proof {
                    assert(v0.apps.contains_key(app_id));
                    assert(app@ == v0.apps[app_id]);
                }
                let r = app.rooms.set_metadata(room_id, metadata);
                let ghost new_rooms = app.rooms@;
                self.by_id.insert(app_id, app);
                proof {
                    lemma_with_app_rooms(v0, app_id, new_rooms);
                    if !r {
                        assert(self@.apps =~= v0.apps);
                    } else {
                        assert(self@.apps =~= with_app_rooms(v0, app_id, new_rooms).apps);
                    }
                }
                r
            },
        }
    }

    /// Removes room `room_id` of application `app_id`, if both exist, and
    /// frees its join code.
    pub fn remove_room(&mut self, app_id: AppId, room_id: RoomId) -> (r: Option<Room>)
        requires
            old(self).wf(),
        ensures
            final(self).wf(),
            final(self)@ == (if old(self)@.apps.contains_key(app_id) {
                with_app_rooms(old(self)@, app_id, rooms_without(old(self)@.apps[app_id].rooms, room_id))
            } else {
                old(self)@
            }),
            match r {
                Some(room) => old(self)@.apps.contains_key(app_id) && old(self)@.apps[app_id].rooms.rooms.contains_key(
                    room_id,
                ) && room@ == old(self)@.apps[app_id].rooms.rooms[room_id],
                None => !(old(self)@.apps.contains_key(app_id) && old(self)@.apps[app_id].rooms.rooms.contains_key(
                    room_id,
                )),
            },
    {
        let ghost v0 = self@;
        match self.by_id.remove(&app_id) {
            None => {
                proof {
                    assert(self@.apps =~= v0.apps);
                }
                None
            },
            Some(mut app) => {
                proof {
                    assert(v0.apps.contains_key(app_id));
                    assert(app@ == v0.apps[app_id]);
                }
                let r = app.rooms.remove(room_id);
                let ghost new_rooms = app.rooms@;
                self.by_id.insert(app_id, app);
                proof {
                    lemma_with_app_rooms(v0, app_id, new_rooms);
                    assert(self@.apps =~= with_app_rooms(v0, app_id, new_rooms).apps);
                }
                r
            },
        }
    }

    /// The members of every room of every application, room after room (a
    /// client in several rooms comes once for each).
    pub fn member_list(&self) -> (out: Vec<ClientId>)
        ensures
            out@.to_set() == app_members(self@.apps),
    {
        let ids = self.ids();
        let mut out: Vec<ClientId> = Vec::new();
        let mut i: usize = 0;
        proof {
            assert(out@.to_set() =~= Set::<ClientId>::empty());
        }
        while i < ids.len()
            invariant
                i <= ids@.len(),
                ids@.to_set() == self@.apps.dom(),
                out@.to_set() == Set::new(
                    |c: ClientId|
                        exists|a: AppId|
                            #[trigger] ids@.take(i as int).contains(a) && members_of(self@.apps[a].rooms.rooms).contains(c),
                ),
            decreases ids.len() - i,
        {
            let id = ids[i];
            let ghost before = out@;
            proof {
                assert(ids@.to_set().contains(id));
            }
            match self.by_id.get(&id) {
                Some(app) => {
                    let members = app.rooms.member_list();
                    append_ids(&mut out, &members);
                    proof {
                        assert(self@.apps.contains_key(id));
                        assert(self@.apps[id] == app@);
                        vstd::seq_lib::seq_to_set_distributes_over_add(before, members@);
                        let t0 = ids@.take(i as int);
                        let t1 = ids@.take(i + 1);
                        assert(t1 =~= t0.push(id));
                        let tgt = Set::new(
                            |c: ClientId|
                                exists|a: AppId|
                                    #[trigger] t1.contains(a) && members_of(self@.apps[a].rooms.rooms).contains(c),
                        );
                        let prev = Set::new(
                            |c: ClientId|
                                exists|a: AppId|
                                    #[trigger] t0.contains(a) && members_of(self@.apps[a].rooms.rooms).contains(c),
                        );
                        assert(before.to_set() == prev);
                        assert(out@.to_set() == before.to_set() + members@.to_set());
                        assert forall|c: ClientId| out@.to_set().contains(c) implies tgt.contains(c) by {
                            if prev.contains(c) {
                                let a = choose|a: AppId| #[trigger] t0.contains(a) && members_of(self@.apps[a].rooms.rooms).contains(c);
                                let x = choose|x: int| 0 <= x < t0.len() && t0[x] == a;
                                assert(t1[x] == a);
                                assert(t1.contains(a));
                            } else {
                                assert(members@.to_set().contains(c));
                                assert(t1[i as int] == id);
                                assert(t1.contains(id));
                            }
                        }
                        assert forall|c: ClientId| tgt.contains(c) implies out@.to_set().contains(c) by {
                            let a = choose|a: AppId| #[trigger] t1.contains(a) && members_of(self@.apps[a].rooms.rooms).contains(c);
                            let x = choose|x: int| 0 <= x < t1.len() && t1[x] == a;
                            if x < i {
                                assert(t0[x] == a);
                                assert(t0.contains(a));
                                assert(prev.contains(c));
                            } else {
                                assert(a == id);
                                assert(members@.to_set().contains(c));
                            }
                        }
                        assert(out@.to_set() =~= tgt);
                    }
                },
                None => {
                    proof {
                        assert(false);
                    }
                },
            }
            i += 1;
        }
        proof {
            assert(ids@.take(ids@.len() as int) =~= ids@);
            assert forall|c: ClientId| out@.to_set().contains(c) <==> app_members(self@.apps).contains(c) by {
                if app_members(self@.apps).contains(c) {
                    let a = choose|a: AppId| #[trigger] self@.apps.contains_key(a) && members_of(self@.apps[a].rooms.rooms).contains(c);
                    assert(ids@.to_set().contains(a));
                }
                if out@.to_set().contains(c) {
                    let a = choose|a: AppId| #[trigger] ids@.contains(a) && members_of(self@.apps[a].rooms.rooms).contains(c);
                    assert(ids@.to_set().contains(a));
                }
            }
            assert(out@.to_set() =~= app_members(self@.apps));
        }
        out
    }

    /// Closes every room of every application.
    pub fn clear_rooms(&mut self)
        requires
            old(self).wf(),
        ensures
            final(self).wf(),
            final(self)@ == without_rooms(old(self)@),
    {
        let ghost v0 = self@;
        let ids = self.ids();
        let mut i: usize = 0;
        while i < ids.len()
            invariant
                i <= ids@.len(),
                ids@.no_duplicates(),
                ids@.to_set() == v0.apps.dom(),
                apps_wf(v0),
                self.wf(),
                self@.next_id == v0.next_id,
                self@.apps.dom() == v0.apps.dom(),
                forall|a: AppId| #[trigger] self@.apps.contains_key(a) ==> self@.apps[a] == (if ids@.take(
                    i as int,
                ).contains(a) {
                    without_rooms(v0).apps[a]
                } else {
                    v0.apps[a]
                }),
            decreases ids.len() - i,
        {
            let id = ids[i];
            let ghost before = self@;
            proof {
                assert(ids@.to_set().contains(id));
                assert(!ids@.take(i as int).contains(id)) by {
                    if ids@.take(i as int).contains(id) {
                        let y = choose|y: int| 0 <= y < i && ids@.take(i as int)[y] == id;
                        assert(ids@[y] == ids@[i as int]);
                    }
                }
            }
            match self.by_id.remove(&id) {
                Some(mut app) => {
                    proof {
                        assert(before.apps.contains_key(id));
                        assert(app@ == before.apps[id]);
                    }
                    app.rooms.clear();
                    let ghost new_rooms = app.rooms@;
                    self.by_id.insert(id, app);
                    proof {
                        lemma_with_app_rooms(before, id, new_rooms);
                        assert(self@.apps =~= with_app_rooms(before, id, new_rooms).apps);
                        let t1 = ids@.take(i + 1);
                        assert(t1 =~= ids@.take(i as int).push(id));
                        assert forall|a: AppId| #[trigger] self@.apps.contains_key(a) implies self@.apps[a] == (
                        if t1.contains(a) {
                            without_rooms(v0).apps[a]
                        } else {
                            v0.apps[a]
                        }) by {
                            if a == id {
                                assert(t1[i as int] == id);
                                assert(t1.contains(a));
                                assert(new_rooms.rooms =~= Map::<RoomId, RoomView>::empty());
                            } else {
                                assert(before.apps.contains_key(a));
                                if t1.contains(a) {
                                    let x = choose|x: int| 0 <= x < t1.len() && t1[x] == a;
                                    assert(ids@.take(i as int)[x] == a);
                                    assert(ids@.take(i as int).contains(a));
                                } else {
                                    assert(!ids@.take(i as int).contains(a));
                                }
                            }
                        }
                        assert(self@.apps.dom() =~= v0.apps.dom());
                    }
                },
                None => {
                    proof {
                        assert(false);
                    }
                },
            }
            i += 1;
        }
        proof {
            assert(ids@.take(ids@.len() as int) =~= ids@);
            assert forall|a: AppId| #[trigger] self@.apps.contains_key(a) implies self@.apps[a] == without_rooms(v0).apps[a] by {
                assert(ids@.to_set().contains(a));
            }
            assert(self@.apps =~= without_rooms(v0).apps);
        }
    }
}

} // verus!
