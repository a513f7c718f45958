//! The transport's sessions: each remote endpoint that sends a datagram gets
//! a client id, handed out in increasing order from 1, and a session that
//! remembers when the endpoint was last heard from. Sessions silent for
//! longer than a timeout expire.
use vstd::prelude::*;
use std::collections::HashMap;
use crate::peers::ClientId;
use crate::transport::reliability::elapsed;
use vstd::std_specs::iter::IteratorSpec;

verus! {

broadcast use vstd::std_specs::hash::group_hash_axioms;

/// A remote endpoint: an IPv6 address (IPv4 addresses in their mapped
/// form) and a port.
#[derive(Debug, Clone, Copy, PartialEq, Eq, Structural)]
pub struct Endpoint {
    pub ip: u128,
    pub port: u16,
}

/// A client's session: its id, where it sends from, and when it was last
/// heard from (nanoseconds on the transport's clock).
#[derive(Debug, Clone, Copy, PartialEq, Eq, Structural)]
pub struct ClientSession {
    pub id: ClientId,
    pub addr: Endpoint,
    pub last_heard_from: u128,
}

/// All sessions, by client id.
pub struct ConnectionManager {
    id_to_session: HashMap<ClientId, ClientSession>,
    next_client_id: u64,
}

pub struct ConnectionManagerView {
    pub sessions: Map<ClientId, ClientSession>,
    /// The id the next session gets.
    pub next_id: u64,
}

impl View for ConnectionManager {
    type V = ConnectionManagerView;

    closed spec fn view(&self) -> ConnectionManagerView {
        ConnectionManagerView { sessions: self.id_to_session@, next_id: self.next_client_id }
    }
}

/// The invariant: each session is filed under its own id, which is below
/// the next id, and no two sessions share an endpoint.
pub open spec fn sessions_wf(v: ConnectionManagerView) -> bool {
    &&& v.next_id >= 1
    &&& forall|id: ClientId|
        #[trigger] v.sessions.contains_key(id) ==> v.sessions[id].id == id && 1 <= id < v.next_id
    &&& forall|a: ClientId, b: ClientId|
        #[trigger] v.sessions.contains_key(a) && #[trigger] v.sessions.contains_key(b) && a != b
            ==> v.sessions[a].addr != v.sessions[b].addr
}

/// Whether some session sends from `addr`.
pub open spec fn has_endpoint(sessions: Map<ClientId, ClientSession>, addr: Endpoint) -> bool {
    exists|id: ClientId| #[trigger] sessions.contains_key(id) && sessions[id].addr == addr
}

/// The session that sends from `addr` (meaningful when there is one).
pub open spec fn endpoint_owner(sessions: Map<ClientId, ClientSession>, addr: Endpoint) -> ClientId {
    choose|id: ClientId| #[trigger] sessions.contains_key(id) && sessions[id].addr == addr
}

/// Whether a session last heard from at `last` has been silent longer than
/// `timeout` at `now`.
pub open spec fn expired(last: u128, now: u128, timeout: u128) -> bool {
    elapsed(now, last) > timeout
}

/// The sessions silent longer than `timeout` at `now`.
pub open spec fn expired_ids(sessions: Map<ClientId, ClientSession>, now: u128, timeout: u128) -> Set<ClientId> {
    sessions.dom().filter(|id: ClientId| expired(sessions[id].last_heard_from, now, timeout))
}

impl ConnectionManager {
    pub open spec fn wf(&self) -> bool {
        sessions_wf(self@)
    }

    /// No session; the first one gets id 1.
    pub fn new() -> (r: Self)
        ensures
            r.wf(),
            r@.sessions == Map::<ClientId, ClientSession>::empty(),
            r@.next_id == 1,
    {
        let r = Self { id_to_session: HashMap::new(), next_client_id: 1 };
        proof {
            assert(r@.sessions =~= Map::<ClientId, ClientSession>::empty());
        }
        r
    }

    /// Whether another session can be created.
    pub fn can_create(&self) -> (r: bool)
        ensures
            r == (self@.next_id < u64::MAX),
    {
        self.next_client_id < u64::MAX
    }

    /// Opens a session for `addr`, heard from at `now`, under the next id
    /// (`addr` has no session).
    pub fn create_session(&mut self, addr: Endpoint, now: u128) -> (id: ClientId)
        requires
            old(self).wf(),
            old(self)@.next_id < u64::MAX,
            !has_endpoint(old(self)@.sessions, addr),
        ensures
            final(self).wf(),
            id == old(self)@.next_id,
            !old(self)@.sessions.contains_key(id),
            final(self)@ == (ConnectionManagerView {
                sessions: old(self)@.sessions.insert(id, ClientSession { id, addr, last_heard_from: now }),
                next_id: (id + 1) as u64,
            }),
    {
        let id = self.next_client_id;
        self.next_client_id = self.next_client_id + 1;
        proof {
            assert(!old(self)@.sessions.contains_key(id));
        }
        self.id_to_session.insert(id, ClientSession { id, addr, last_heard_from: now });
        proof {
            let v0 = old(self)@;
            assert forall|a: ClientId, b: ClientId|
                #[trigger] self@.sessions.contains_key(a) && #[trigger] self@.sessions.contains_key(b) && a
                    != b implies self@.sessions[a].addr != self@.sessions[b].addr by {
                if a != id && b != id {
                    assert(v0.sessions.contains_key(a) && v0.sessions.contains_key(b));
                } else if a == id {
                    assert(v0.sessions.contains_key(b));
                } else {
                    assert(v0.sessions.contains_key(a));
                }
            }
            assert forall|x: ClientId| #[trigger] self@.sessions.contains_key(x) implies self@.sessions[x].id
                == x && 1 <= x < self@.next_id by {
                if x != id {
                    assert(v0.sessions.contains_key(x));
                }
            }
        }
        id
    }

    /// The ids of the sessions, each once, in no particular order.
    pub fn ids(&self) -> (out: Vec<ClientId>)
        ensures
            out@.to_set() == self@.sessions.dom(),
            out@.no_duplicates(),
    {
        let mut out: Vec<ClientId> = Vec::new();
        let ghost ks = vstd::std_specs::hash::spec_keys_iter(&self.id_to_session).remaining();
        for k in iter: self.id_to_session.keys()
            invariant
                iter.seq() == ks,
                out@.len() == iter.index(),
                forall|i: int| 0 <= i < out@.len() ==> out@[i] == *iter.seq()[i],
        {
            out.push(*k);
        }
        proof {
            assert(out@ =~= ks.unref());
            assert(out@.to_set() =~= self@.sessions.dom());
        }
        out
    }

    /// The session that sends from `addr`, if any.
    pub fn find(&self, addr: Endpoint) -> (r: Option<ClientId>)
        requires
            self.wf(),
        ensures
            match r {
                Some(id) => has_endpoint(self@.sessions, addr) && id == endpoint_owner(self@.sessions, addr)
                    && self@.sessions.contains_key(id) && self@.sessions[id].addr == addr,
                None => !has_endpoint(self@.sessions, addr),
            },
    {
        let ids = self.ids();
        let mut i: usize = 0;
        while i < ids.len()
            invariant
                i <= ids@.len(),
                ids@.to_set() == self@.sessions.dom(),
                self.wf(),
                forall|k: int| 0 <= k < i ==> self@.sessions[#[trigger] ids@[k]].addr != addr,
            decreases ids.len() - i,
        {
            let id = ids[i];
            proof {
                assert(ids@.to_set().contains(id));
            }
            match self.id_to_session.get(&id) {
                Some(session) => {
                    if session.addr == addr {
                        proof {
                            let o = endpoint_owner(self@.sessions, addr);
                            assert(self@.sessions.contains_key(id) && self@.sessions[id].addr == addr);
                            assert(self@.sessions.contains_key(o) && self@.sessions[o].addr == addr);
                        }
                        return Some(id);
                    }
                },
                None => {},
            }
            i += 1;
        }
        proof {
            if has_endpoint(self@.sessions, addr) {
                let k = endpoint_owner(self@.sessions, addr);
                assert(ids@.to_set().contains(k));
                let x = choose|x: int| 0 <= x < ids@.len() && ids@[x] == k;
                assert(self@.sessions[ids@[x]].addr != addr);
            }
        }
        None
    }

    /// The session for `addr`, opened (heard from at `now`) if there is
    /// none; says whether it was opened.
    pub fn get_or_create(&mut self, addr: Endpoint, now: u128) -> (r: (ClientId, bool))
        requires
            old(self).wf(),
            old(self)@.next_id < u64::MAX,
        ensures
            final(self).wf(),
            has_endpoint(old(self)@.sessions, addr) ==> r == (endpoint_owner(old(self)@.sessions, addr), false)
                && final(self)@ == old(self)@,
            !has_endpoint(old(self)@.sessions, addr) ==> r == (old(self)@.next_id, true) && final(self)@ == (
            ConnectionManagerView {
                sessions: old(self)@.sessions.insert(
                    r.0,
                    ClientSession { id: r.0, addr, last_heard_from: now },
                ),
                next_id: (r.0 + 1) as u64,
            }),
    {
        match self.find(addr) {
            Some(id) => (id, false),
            None => (self.create_session(addr, now), true),
        }
    }

    /// The session of `id`, if any.
    pub fn get_by_id(&self, id: ClientId) -> (r: Option<&ClientSession>)
        ensures
            match r {
                Some(s) => self@.sessions.contains_key(id) && *s == self@.sessions[id],
                None => !self@.sessions.contains_key(id),
            },
    {
        self.id_to_session.get(&id)
    }

    /// Records that `id` was heard from at `now`; says whether it has a
    /// session.
    pub fn touch(&mut self, id: ClientId, now: u128) -> (r: bool)
        requires
            old(self).wf(),
        ensures
            final(self).wf(),
            r == old(self)@.sessions.contains_key(id),
            r ==> final(self)@ == (ConnectionManagerView {
                sessions: old(self)@.sessions.insert(
                    id,
                    ClientSession { last_heard_from: now, ..old(self)@.sessions[id] },
                ),
                ..old(self)@
            }),
            !r ==> final(self)@ == old(self)@,
    {
        match self.id_to_session.remove(&id) {
            Some(session) => {
                self.id_to_session.insert(id, ClientSession { last_heard_from: now, ..session });
                proof {
                    let v0 = old(self)@;
                    assert(v0.sessions.contains_key(id));
                    assert(self@.sessions =~= v0.sessions.insert(
                        id,
                        ClientSession { last_heard_from: now, ..v0.sessions[id] },
                    ));
                    assert forall|a: ClientId, b: ClientId|
                        #[trigger] self@.sessions.contains_key(a) && #[trigger] self@.sessions.contains_key(b)
                            && a != b implies self@.sessions[a].addr != self@.sessions[b].addr by {
                        assert(v0.sessions.contains_key(a) && v0.sessions.contains_key(b));
                    }
                    assert forall|x: ClientId| #[trigger] self@.sessions.contains_key(x) implies self@.sessions[x].id
                        == x && 1 <= x < self@.next_id by {
                        assert(v0.sessions.contains_key(x));
                    }
                }
                true
            },
            None => {
                proof {
                    assert(self@.sessions =~= old(self)@.sessions);
                }
                false
            },
        }
    }

    /// Closes the session of `id`, if any.
    pub fn remove_session(&mut self, id: ClientId)
        requires
            old(self).wf(),
        ensures
            final(self).wf(),
            final(self)@ == (ConnectionManagerView { sessions: old(self)@.sessions.remove(id), ..old(self)@ }),
    {
        self.id_to_session.remove(&id);
        proof {
            let v0 = old(self)@;
            assert(self@.sessions =~= v0.sessions.remove(id));
            assert forall|a: ClientId, b: ClientId|
                #[trigger] self@.sessions.contains_key(a) && #[trigger] self@.sessions.contains_key(b) && a
                    != b implies self@.sessions[a].addr != self@.sessions[b].addr by {
                assert(v0.sessions.contains_key(a) && v0.sessions.contains_key(b));
            }
            assert forall|x: ClientId| #[trigger] self@.sessions.contains_key(x) implies self@.sessions[x].id
                == x && 1 <= x < self@.next_id by {
                assert(v0.sessions.contains_key(x));
            }
        }
    }

    /// Closes every session silent longer than `timeout` at `now` and
    /// returns their ids, each once, in no particular order.
    pub fn cleanup_sessions(&mut self, now: u128, timeout: u128) -> (expired: Vec<ClientId>)
        requires
            old(self).wf(),
        ensures
            final(self).wf(),
            expired@.no_duplicates(),
            expired@.to_set() == expired_ids(old(self)@.sessions, now, timeout),
            final(self)@ == (ConnectionManagerView {
                sessions: old(self)@.sessions.remove_keys(expired_ids(old(self)@.sessions, now, timeout)),
                ..old(self)@
            }),
    {
        let ghost v0 = self@;
        let ids = self.ids();
        let mut out: Vec<ClientId> = Vec::new();
        let mut i: usize = 0;
        proof {
            assert(ids@.take(0).to_set() =~= Set::<ClientId>::empty());
            assert(out@.to_set() =~= Set::<ClientId>::empty());
        }
        while i < ids.len()
            invariant
                i <= ids@.len(),
                ids@.no_duplicates(),
                ids@.to_set() == v0.sessions.dom(),
                self@ == v0,
                out@.no_duplicates(),
                out@.to_set() == ids@.take(i as int).to_set().filter(
                    |id: ClientId| expired(v0.sessions[id].last_heard_from, now, timeout),
                ),
            decreases ids.len() - i,
        {
            let id = ids[i];
            let ghost t0 = ids@.take(i as int);
            proof {
                assert(ids@.take(i + 1) =~= t0.push(id));
                t0.lemma_push_to_set_commute(id);
                assert(ids@.to_set().contains(id));
                assert(!t0.contains(id)) by {
                    if t0.contains(id) {
                        let y = choose|y: int| 0 <= y < t0.len() && t0[y] == id;
                        assert(ids@[y] == ids@[i as int]);
                    }
                }
            }
            match self.id_to_session.get(&id) {
                Some(session) => {
                    let since = if now >= session.last_heard_from {
                        now - session.last_heard_from
                    } else {
                        0
                    };
                    if since > timeout {
                        let ghost before = out@;
                        out.push(id);
                        proof {
                            assert(!before.contains(id)) by {
                                if before.contains(id) {
                                    assert(before.to_set().contains(id));
                                }
                            }
                            before.lemma_push_to_set_commute(id);
                            assert forall|a: int, b: int|
                                0 <= a < out@.len() && 0 <= b < out@.len() && a != b implies out@[a] != out@[b] by {
                                if a < before.len() && b < before.len() {
                                } else if a < before.len() {
                                    assert(before.contains(out@[a]));
                                } else if b < before.len() {
                                    assert(before.contains(out@[b]));
                                }
                            }
                            assert(out@.to_set() =~= ids@.take(i + 1).to_set().filter(
                                |x: ClientId| expired(v0.sessions[x].last_heard_from, now, timeout),
                            ));
                        }
                    } else {
                        proof {
                            assert(out@.to_set() =~= ids@.take(i + 1).to_set().filter(
                                |x: ClientId| expired(v0.sessions[x].last_heard_from, now, timeout),
                            ));
                        }
                    }
                },
                None => {
                    proof {
                        assert(false);
                    }
                },
            }
            i += 1;
        }
        proof {
            assert(ids@.take(ids@.len() as int) =~= ids@);
            assert(out@.to_set() =~= expired_ids(v0.sessions, now, timeout));
            assert(out@.take(0).to_set() =~= Set::<ClientId>::empty());
            assert(v0.sessions.remove_keys(Set::<ClientId>::empty()) =~= v0.sessions);
        }
        let mut k: usize = 0;
        while k < out.len()
            invariant
                k <= out@.len(),
                out@.no_duplicates(),
                sessions_wf(self@),
                self@ == (ConnectionManagerView {
                    sessions: v0.sessions.remove_keys(out@.take(k as int).to_set()),
                    ..v0
                }),
            decreases out.len() - k,
        {
            let ghost before = self@;
            self.remove_session(out[k]);
            proof {
                let t0 = out@.take(k as int);
                assert(out@.take(k + 1) =~= t0.push(out@[k as int]));
                t0.lemma_push_to_set_commute(out@[k as int]);
                assert(self@.sessions =~= v0.sessions.remove_keys(out@.take(k + 1).to_set()));
            }
            k += 1;
        }
        proof {
            assert(out@.take(out@.len() as int) =~= out@);
        }
        out
    }
}

} // verus!
