//! The renet relay's room: a host and its peers.
use vstd::prelude::*;
use std::collections::HashMap;
use crate::peers::{ClientId, PeerTable, PeerTableView};

verus! {

#[derive(Debug)]
pub struct Room {
    pub id: String,
    host_id: ClientId,
    peers: PeerTable,
}

pub struct RoomView {
    pub id: Seq<char>,
    pub host: ClientId,
    pub peers: PeerTableView,
}

impl View for Room {
    type V = RoomView;

    closed spec fn view(&self) -> RoomView {
        RoomView { id: self.id@, host: self.host_id, peers: self.peers@ }
    }
}

impl Room {
    pub open spec fn wf(&self) -> bool {
        crate::peers::peer_table_wf(self@.peers)
    }

    pub fn new(id: String, host_id: ClientId) -> (r: Self)
        ensures
            r.wf(),
            r@.id == id@,
            r@.host == host_id,
            r@.peers.clients == Map::<ClientId, i32>::empty(),
            r@.peers.godots == Map::<i32, ClientId>::empty(),
            r@.peers.next == 1,
            crate::peers::peers_paired(r@.peers),
    {
        Self { id, host_id, peers: PeerTable::new() }
    }

    /// The room's identifier.
    pub fn id_str(&self) -> (r: &str)
        ensures
            r@ == self@.id,
    {
        self.id.as_str()
    }

    /// Gives `client_id` the room's next peer identifier and returns it.
    pub fn add_peer(&mut self, client_id: ClientId) -> (godot_pid: i32)
        requires
            old(self).wf(),
            old(self)@.peers.next < i32::MAX,
        ensures
            final(self).wf(),
            final(self)@.id == old(self)@.id,
            final(self)@.host == old(self)@.host,
            godot_pid == old(self)@.peers.next,
            final(self)@.peers.clients == old(self)@.peers.clients.insert(client_id, godot_pid),
            final(self)@.peers.godots == old(self)@.peers.godots.insert(godot_pid, client_id),
            final(self)@.peers.next == godot_pid + 1,
            crate::peers::peers_paired(old(self)@.peers) && !old(self)@.peers.clients.contains_key(client_id)
                ==> crate::peers::peers_paired(final(self)@.peers),
    {
        self.peers.add_peer(client_id)
    }

    /// The member clients, each once, in no particular order.
    pub fn get_renet_ids(&self) -> (r: Vec<ClientId>)
        ensures
            r@.to_set() == self@.peers.clients.dom(),
            r@.no_duplicates(),
            r@.len() == self@.peers.clients.dom().len(),
    {
        self.peers.client_ids()
    }

    /// The members and their peer identifiers.
    pub fn get_peers(&self) -> (r: &HashMap<ClientId, i32>)
        ensures
            r@ == self@.peers.clients,
    {
        self.peers.clients_map()
    }

    pub fn get_host(&self) -> (r: ClientId)
        ensures
            r == self@.host,
    {
        self.host_id
    }

    pub fn get_godot_id(&self, client_id: ClientId) -> (r: Option<i32>)
        ensures
            r == (if self@.peers.clients.contains_key(client_id) {
                Some(self@.peers.clients[client_id])
            } else {
                None::<i32>
            }),
    {
        self.peers.godot_id(client_id)
    }

    pub fn get_renet_id(&self, godot_id: i32) -> (r: Option<ClientId>)
        ensures
            r == (if self@.peers.godots.contains_key(godot_id) {
                Some(self@.peers.godots[godot_id])
            } else {
                None::<ClientId>
            }),
    {
        self.peers.client_id(godot_id)
    }

    pub fn contains_renet_id(&self, renet_id: ClientId) -> (r: bool)
        ensures
            r == self@.peers.clients.contains_key(renet_id),
    {
        self.peers.contains_client(renet_id)
    }

    /// Removes `renet_id` from the room, returning its peer identifier if it
    /// was a member.
    pub fn remove_peer(&mut self, renet_id: ClientId) -> (r: Option<i32>)
        requires
            old(self).wf(),
        ensures
            final(self).wf(),
            final(self)@.id == old(self)@.id,
            final(self)@.host == old(self)@.host,
            final(self)@.peers.next == old(self)@.peers.next,
            r == (if old(self)@.peers.clients.contains_key(renet_id) {
                Some(old(self)@.peers.clients[renet_id])
            } else {
                None::<i32>
            }),
            match r {
                Some(g) => final(self)@.peers.clients == old(self)@.peers.clients.remove(renet_id)
                    && final(self)@.peers.godots == old(self)@.peers.godots.remove(g),
                None => final(self)@.peers == old(self)@.peers,
            },
            crate::peers::peers_paired(old(self)@.peers) ==> crate::peers::peers_paired(final(self)@.peers),
    {
        self.peers.remove_peer(renet_id)
    }

    /// Whether the room can still hand out a peer identifier.
    pub fn has_peer_ids_left(&self) -> (r: bool)
        ensures
            r == (self@.peers.next < i32::MAX),
    {
        self.peers.next_id() < i32::MAX
    }

    /// Whether the room has neither a member nor an identifier on record.
    pub fn is_empty(&self) -> (r: bool)
        ensures
            r == (self@.peers.clients.is_empty() && self@.peers.godots.is_empty()),
    {
        self.peers.has_no_clients() && self.peers.has_no_godots()
    }
}

/// In a room whose peer maps are each other's inverse (as `new` makes it,
/// `add_peer` of a client that is not a member keeps it, and `remove_peer`
/// keeps it): `get_godot_id(c)` is `Some(g)` exactly when `get_renet_id(g)`
/// is `Some(c)`; the member list (`get_renet_ids`) is as long as there are identifiers on record;
/// and `is_empty` (no member and no identifier on
/// record) holds exactly when the room has no member, that is when it counts
/// none.
pub proof fn law_room_peers_agree(v: RoomView, c: ClientId, g: i32)
    requires
        crate::peers::peer_table_wf(v.peers),
        crate::peers::peers_paired(v.peers),
    ensures
        (v.peers.clients.contains_key(c) && v.peers.clients[c] == g) <==> (v.peers.godots.contains_key(g)
            && v.peers.godots[g] == c),
        v.peers.clients.dom().len() == v.peers.godots.dom().len(),
        (v.peers.clients.is_empty() && v.peers.godots.is_empty()) <==> v.peers.clients.is_empty(),
        v.peers.clients.is_empty() <==> v.peers.clients.dom().len() == 0,
{
    crate::peers::law_paired_peer_tables_agree(v.peers, c, g);
}

} // verus!
