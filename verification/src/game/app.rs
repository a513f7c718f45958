use vstd::prelude::*;
use crate::game::room::Room;
use crate::text::str_eq;

verus! {

/// An application known to the server, with its rooms keyed by room id.
///
/// The rooms are kept in a vector whose ids are pairwise distinct, which is
/// exactly what a map from id to room holds; adding a room under an id in
/// use replaces that room in place.
pub struct App {
    pub(crate) id: String,
    pub(crate) rooms: Vec<Room>,
}

pub struct AppView {
    pub id: Seq<char>,
    pub rooms: Seq<Room>,
}

impl View for App {
    type V = AppView;

    closed spec fn view(&self) -> AppView {
        AppView { id: self.id@, rooms: self.rooms@ }
    }
}

/// An application's content is its id and its rooms.
pub(crate) broadcast proof fn lemma_app_view(a: &App)
    ensures
        #[trigger] a@ == (AppView { id: a.id@, rooms: a.rooms@ }),
{
}

/// Whether some room of `rooms` has id `id`.
pub open spec fn has_room(rooms: Seq<Room>, id: Seq<char>) -> bool {
    exists|i: int| 0 <= i < rooms.len() && (#[trigger] rooms[i])@.id == id
}

/// The position of the room with id `id` (meaningful when there is one).
pub open spec fn room_index(rooms: Seq<Room>, id: Seq<char>) -> int {
    choose|i: int| 0 <= i < rooms.len() && (#[trigger] rooms[i])@.id == id
}

/// Room ids are pairwise distinct and every room is well formed.
pub open spec fn rooms_wf(rooms: Seq<Room>) -> bool {
    &&& forall|i: int, j: int|
        0 <= i < rooms.len() && 0 <= j < rooms.len() && i != j ==> (#[trigger] rooms[i])@.id
            != (#[trigger] rooms[j])@.id
    &&& forall|i: int| 0 <= i < rooms.len() ==> (#[trigger] rooms[i]).wf()
}

/// The rooms after storing `room`: it replaces the room with its id, or
/// comes last if there was none.
pub open spec fn rooms_after_add(rooms: Seq<Room>, room: Room) -> Seq<Room> {
    if has_room(rooms, room@.id) {
        rooms.update(room_index(rooms, room@.id), room)
    } else {
        rooms.push(room)
    }
}

/// Removing the room with id `id`: the room removed, if any, and the rooms
/// left.
pub open spec fn rooms_after_remove(rooms: Seq<Room>, id: Seq<char>) -> (Option<Room>, Seq<Room>) {
    if has_room(rooms, id) {
        (Some(rooms[room_index(rooms, id)]), rooms.remove(room_index(rooms, id)))
    } else {
        (None, rooms)
    }
}

impl App {
    pub open spec fn wf(&self) -> bool {
        rooms_wf(self@.rooms)
    }

    pub fn new(id: String) -> (a: Self)
        ensures
            a.wf(),
            a@.id == id@,
            a@.rooms == Seq::<Room>::empty(),
    {
        Self { id, rooms: Vec::new() }
    }

    pub(crate) fn position(&self, room_id: &str) -> (r: Option<usize>)
        ensures
            match r {
                Some(i) => i < self@.rooms.len() && self@.rooms[i as int]@.id == room_id@,
                None => !has_room(self@.rooms, room_id@),
            },
    {
        let mut i: usize = 0;
        while i < self.rooms.len()
            invariant
                i <= self.rooms@.len(),
                forall|j: int| 0 <= j < i ==> (#[trigger] self.rooms@[j])@.id != room_id@,
            decreases self.rooms.len() - i,
        {
            if str_eq(self.rooms[i].id_str(), room_id) {
                return Some(i);
            }
            i += 1;
        }
        None
    }

    /// The app's identifier.
    pub fn id_str(&self) -> (r: &str)
        ensures
            r@ == self@.id,
    {
        self.id.as_str()
    }

    /// Stores `room` under its id, replacing any room with that id.
    pub fn add_room(&mut self, room: Room)
        requires
            old(self).wf(),
            room.wf(),
        ensures
            final(self).wf(),
            final(self)@.id == old(self)@.id,
            has_room(old(self)@.rooms, room@.id) ==> final(self)@.rooms == old(self)@.rooms.update(
                room_index(old(self)@.rooms, room@.id),
                room,
            ),
            !has_room(old(self)@.rooms, room@.id) ==> final(self)@.rooms == old(self)@.rooms.push(
                room,
            ),
            final(self)@.rooms == rooms_after_add(old(self)@.rooms, room),
    {
        match self.position(room.id_str()) {
            Some(i) => {
                proof {
                    let k = room_index(old(self)@.rooms, room@.id);
                    assert(old(self)@.rooms[i as int]@.id == room@.id);
                    assert(k == i);
                }
                self.rooms.set(i, room);
            },
            None => {
                self.rooms.push(room);
            },
        }
    }

    /// The room with id `room_id`, to read or change in place.
    pub fn get_room(&mut self, room_id: &str) -> (r: Option<&mut Room>)
        requires
            old(self).wf(),
        ensures
            final(self)@.id == old(self)@.id,
            r is Some <==> has_room(old(self)@.rooms, room_id@),
            match r {
                Some(room) => {
                    &&& *room == old(self)@.rooms[room_index(old(self)@.rooms, room_id@)]
                    &&& final(self)@.rooms == old(self)@.rooms.update(
                        room_index(old(self)@.rooms, room_id@),
                        *final(room),
                    )
                },
                None => final(self)@ == old(self)@,
            },
    {
        match self.position(room_id) {
            Some(i) => {
                proof {
                    let k = room_index(old(self)@.rooms, room_id@);
                    assert(old(self)@.rooms[i as int]@.id == room_id@);
                    assert(k == i);
                }
                Some(&mut self.rooms[i])
            },
            None => None,
        }
    }

    /// All rooms, to read or change in place.
    pub fn get_rooms(&mut self) -> (r: &mut Vec<Room>)
        ensures
            r@ == old(self)@.rooms,
            final(self)@.rooms == final(r)@,
            final(self)@.id == old(self)@.id,
    {
        &mut self.rooms
    }

    /// Removes the room with id `room_id` and returns it, if there is one.
    pub fn remove_room(&mut self, room_id: &str) -> (r: Option<Room>)
        requires
            old(self).wf(),
        ensures
            final(self).wf(),
            final(self)@.id == old(self)@.id,
            r is Some <==> has_room(old(self)@.rooms, room_id@),
            match r {
                Some(room) => {
                    &&& room == old(self)@.rooms[room_index(old(self)@.rooms, room_id@)]
                    &&& final(self)@.rooms == old(self)@.rooms.remove(
                        room_index(old(self)@.rooms, room_id@),
                    )
                },
                None => final(self)@ == old(self)@,
            },
            (r, final(self)@.rooms) == rooms_after_remove(old(self)@.rooms, room_id@),
    {
        match self.position(room_id) {
            Some(i) => {
                proof {
                    let k = room_index(old(self)@.rooms, room_id@);
                    assert(old(self)@.rooms[i as int]@.id == room_id@);
                    assert(k == i);
                }
                let room = self.rooms.remove(i);
                proof {
                    let s = self@.rooms;
                    let o = old(self)@.rooms;
                    assert forall|a: int, b: int|
                        0 <= a < s.len() && 0 <= b < s.len() && a != b implies (#[trigger] s[a])@.id
                        != (#[trigger] s[b])@.id by {
                        let oa = if a < i { a } else { a + 1 };
                        let ob = if b < i { b } else { b + 1 };
                        assert(s[a] == o[oa]);
                        assert(s[b] == o[ob]);
                    }
                    assert forall|a: int| 0 <= a < s.len() implies (#[trigger] s[a]).wf() by {
                        let oa = if a < i { a } else { a + 1 };
                        assert(s[a] == o[oa]);
                    }
                }
                Some(room)
            },
            None => None,
        }
    }
}

/// After a room is stored, looking up its id finds it.
pub proof fn law_added_room_is_found(before: Seq<Room>, after: Seq<Room>, room: Room)
    requires
        rooms_wf(before),
        room.wf(),
        has_room(before, room@.id) ==> after == before.update(room_index(before, room@.id), room),
        !has_room(before, room@.id) ==> after == before.push(room),
    ensures
        rooms_wf(after),
        has_room(after, room@.id),
        after[room_index(after, room@.id)] == room,
{
    if has_room(before, room@.id) {
        let k = room_index(before, room@.id);
        assert(after[k]@.id == room@.id);
        let k2 = room_index(after, room@.id);
        assert(k2 == k);
    } else {
        let k = before.len() as int;
        assert(after[k]@.id == room@.id);
        let k2 = room_index(after, room@.id);
        assert(k2 == k);
    }
}

proof fn lemma_remove_keeps_rooms_wf(rooms: Seq<Room>, i: int)
    requires
        rooms_wf(rooms),
        0 <= i < rooms.len(),
    ensures
        rooms_wf(rooms.remove(i)),
{
    let s = rooms.remove(i);
    assert forall|a: int, b: int|
        0 <= a < s.len() && 0 <= b < s.len() && a != b implies (#[trigger] s[a])@.id != (#[trigger] s[b])@.id by {
        let oa = if a < i { a } else { a + 1 };
        let ob = if b < i { b } else { b + 1 };
        assert(s[a] == rooms[oa]);
        assert(s[b] == rooms[ob]);
    }
    assert forall|a: int| 0 <= a < s.len() implies (#[trigger] s[a]).wf() by {
        let oa = if a < i { a } else { a + 1 };
        assert(s[a] == rooms[oa]);
    }
}

/// Storing a room and then removing its id gives that same room back and
/// leaves no room with that id, so removing the id again finds nothing and
/// changes nothing; the rooms under every other id are as before.
pub proof fn law_removing_an_added_room(before: Seq<Room>, room: Room, other: Seq<char>)
    requires
        rooms_wf(before),
        room.wf(),
    ensures
        ({
            let added = rooms_after_add(before, room);
            let (first, left) = rooms_after_remove(added, room@.id);
            let (second, left_again) = rooms_after_remove(left, room@.id);
            &&& first == Some(room)
            &&& !has_room(left, room@.id)
            &&& second is None
            &&& left_again == left
            &&& other != room@.id ==> {
                &&& has_room(left, other) == has_room(before, other)
                &&& has_room(before, other) ==> left[room_index(left, other)] == before[room_index(
                    before,
                    other,
                )]
            }
        }),
{
    let added = rooms_after_add(before, room);
    law_added_room_is_found(before, added, room);
    let k = room_index(added, room@.id);
    let left = added.remove(k);
    lemma_remove_keeps_rooms_wf(added, k);
    assert(rooms_after_remove(added, room@.id) == (Some(room), left));
    assert(!has_room(left, room@.id)) by {
        if has_room(left, room@.id) {
            let j = room_index(left, room@.id);
            let oj = if j < k { j } else { j + 1 };
            assert(left[j] == added[oj]);
            assert(added[k]@.id == room@.id);
        }
    }
    if other != room@.id {
        // Rooms with id `other` are the same in `before` and `added`.
        assert forall|j: int| 0 <= j < before.len() && (#[trigger] before[j])@.id == other implies added[j]
            == before[j] by {
            if has_room(before, room@.id) {
                assert(before[room_index(before, room@.id)]@.id == room@.id);
            }
        }
        assert forall|j: int| 0 <= j < added.len() && (#[trigger] added[j])@.id == other implies j
            < before.len() && added[j] == before[j] by {
            if has_room(before, room@.id) {
                assert(before[room_index(before, room@.id)]@.id == room@.id);
            }
        }
        if has_room(before, other) {
            let jb = room_index(before, other);
            assert(added[jb] == before[jb]);
            assert(jb != k);
            let jl = if jb < k { jb } else { jb - 1 };
            assert(left[jl] == added[jb]);
            assert(has_room(left, other));
            let j2 = room_index(left, other);
            assert(j2 == jl) by {
                if j2 != jl {
                    assert(left[j2]@.id == other);
                }
            }
        } else {
            assert(!has_room(left, other)) by {
                if has_room(left, other) {
                    let j = room_index(left, other);
                    let oj = if j < k { j } else { j + 1 };
                    assert(left[j] == added[oj]);
                    assert(before[oj]@.id == other);
                }
            }
        }
    }
}

} // verus!
