//! The clients connected to the relay and the state each is in.
use vstd::prelude::*;
use std::collections::HashMap;
use crate::peers::ClientId;
use crate::relay::ids::{AppId, RoomId};

verus! {

broadcast use vstd::std_specs::hash::group_hash_axioms;

/// The states a client moves through: connected, authenticated for an
/// application, and in a room of that application.
#[derive(Debug, Clone, Copy, PartialEq, Eq, Structural)]
pub enum ClientState {
    Connected,
    Authenticated { app_id: AppId },
    InRoom { app_id: AppId, room_id: RoomId },
}

impl Default for ClientState {
    fn default() -> (r: Self)
        ensures
            r == ClientState::Connected,
    {
        ClientState::Connected
    }
}

/// A connected client.
#[derive(Debug, Clone, Copy, PartialEq, Eq, Structural)]
pub struct Client {
    pub state: ClientState,
}

impl Default for Client {
    fn default() -> (r: Self)
        ensures
            r.state == ClientState::Connected,
    {
        Client { state: ClientState::Connected }
    }
}

impl Client {
    /// A client that has just connected.
    pub fn new() -> (r: Self)
        ensures
            r.state == ClientState::Connected,
    {
        Client { state: ClientState::Connected }
    }
}

/// All connected clients, by id.
pub struct Clients {
    by_id: HashMap<ClientId, Client>,
}

impl View for Clients {
    type V = Map<ClientId, ClientState>;

    closed spec fn view(&self) -> Map<ClientId, ClientState> {
        self.by_id@.map_values(|c: Client| c.state)
    }
}

impl Clients {
    /// No client.
    pub fn new() -> (r: Self)
        ensures
            r@ == Map::<ClientId, ClientState>::empty(),
    {
        let r = Clients { by_id: HashMap::new() };
        proof {
            assert(r@ =~= Map::<ClientId, ClientState>::empty());
        }
        r
    }

    /// Records `id` as a newly connected client (replacing what was known
    /// of it).
    pub fn create(&mut self, id: ClientId)
        ensures
            final(self)@ == old(self)@.insert(id, ClientState::Connected),
    {
        self.by_id.insert(id, Client::new());
        proof {
            assert(self@ =~= old(self)@.insert(id, ClientState::Connected));
        }
    }

    /// Forgets `id`, returning the client if it was known.
    pub fn remove(&mut self, id: ClientId) -> (r: Option<Client>)
        ensures
            final(self)@ == old(self)@.remove(id),
            match r {
                Some(c) => old(self)@.contains_key(id) && c.state == old(self)@[id],
                None => !old(self)@.contains_key(id),
            },
    {
        let r = self.by_id.remove(&id);
        proof {
            assert(self@ =~= old(self)@.remove(id));
        }
        r
    }

    /// The client `id`, if it is known.
    pub fn get(&self, id: ClientId) -> (r: Option<&Client>)
        ensures
            match r {
                Some(c) => self@.contains_key(id) && c.state == self@[id],
                None => !self@.contains_key(id),
            },
    {
        self.by_id.get(&id)
    }

    /// Moves the known client `id` to `state`; says whether it was known
    /// (an unknown client stays unknown).
    pub fn set_state(&mut self, id: ClientId, state: ClientState) -> (r: bool)
        ensures
            r == old(self)@.contains_key(id),
            r ==> final(self)@ == old(self)@.insert(id, state),
            !r ==> final(self)@ == old(self)@,
    {
        if self.by_id.contains_key(&id) {
            self.by_id.insert(id, Client { state });
            proof {
                assert(self@ =~= old(self)@.insert(id, state));
            }
            true
        } else {
            false
        }
    }
}

} // verus!
