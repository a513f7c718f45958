//! The server end of the datagram transport: the first datagram from an
//! endpoint makes it a client, every datagram marks its client as heard
//! from, the reliable payloads its channel decodes become events, and
//! clients silent for too long, or dropped by the server, are disconnected.
//! The socket and each client's channel stay with the program around this
//! logic.
use vstd::prelude::*;
use crate::peers::ClientId;
use crate::transport::common::{ServerEvent, TransferChannels};
use crate::udp::sessions::{
    endpoint_owner, expired_ids, has_endpoint, ClientSession, ConnectionManager, ConnectionManagerView,
    Endpoint,
};

verus! {

pub enum ServerEventView {
    ClientConnected { client_id: ClientId },
    ClientDisconnected { client_id: ClientId },
    PacketReceived { client_id: ClientId, data: Seq<u8>, channel: TransferChannels },
}

impl View for ServerEvent {
    type V = ServerEventView;

    open spec fn view(&self) -> ServerEventView {
        match self {
            ServerEvent::ClientConnected { client_id } => ServerEventView::ClientConnected {
                client_id: *client_id,
            },
            ServerEvent::ClientDisconnected { client_id } => ServerEventView::ClientDisconnected {
                client_id: *client_id,
            },
            ServerEvent::PacketReceived { client_id, data, channel } => ServerEventView::PacketReceived {
                client_id: *client_id,
                data: data@,
                channel: *channel,
            },
        }
    }
}

pub open spec fn server_events_view(s: Seq<ServerEvent>) -> Seq<ServerEventView> {
    s.map_values(|e: ServerEvent| e@)
}

/// The reliable payloads decoded for `client_id`, as events.
pub open spec fn payload_events(client_id: ClientId, payloads: Seq<Seq<u8>>) -> Seq<ServerEventView> {
    payloads.map_values(
        |p: Seq<u8>| ServerEventView::PacketReceived { client_id, data: p, channel: TransferChannels::Reliable },
    )
}

/// `ids`, in that order, reported as disconnected.
pub open spec fn disconnections(ids: Seq<ClientId>) -> Seq<ServerEventView> {
    ids.map_values(|id: ClientId| ServerEventView::ClientDisconnected { client_id: id })
}

/// The server end's bookkeeping: the sessions and the events not yet
/// handed out.
pub struct PaperTransport {
    sessions: ConnectionManager,
    pending_events: Vec<ServerEvent>,
}

pub struct PaperTransportView {
    pub sessions: ConnectionManagerView,
    pub events: Seq<ServerEventView>,
}

impl View for PaperTransport {
    type V = PaperTransportView;

    closed spec fn view(&self) -> PaperTransportView {
        PaperTransportView { sessions: self.sessions@, events: server_events_view(self.pending_events@) }
    }
}

impl PaperTransport {
    pub open spec fn wf(&self) -> bool {
        crate::udp::sessions::sessions_wf(self@.sessions)
    }

    /// No client and no event.
    pub fn new() -> (r: Self)
        ensures
            r.wf(),
            r@.sessions.sessions == Map::<ClientId, ClientSession>::empty(),
            r@.sessions.next_id == 1,
            r@.events == Seq::<ServerEventView>::empty(),
    {
        let r = Self { sessions: ConnectionManager::new(), pending_events: Vec::new() };
        proof {
            assert(r@.events =~= Seq::<ServerEventView>::empty());
        }
        r
    }

    /// Whether another client can be admitted.
    pub fn can_admit(&self) -> (r: bool)
        ensures
            r == (self@.sessions.next_id < u64::MAX),
    {
        self.sessions.can_create()
    }

    /// A datagram arrived from `addr` at `now`: an endpoint heard from for
    /// the first time becomes a client, which is reported; the client is
    /// marked as heard from. Returns the client's id.
    pub fn accept_datagram(&mut self, addr: Endpoint, now: u128) -> (id: ClientId)
        requires
            old(self).wf(),
            old(self)@.sessions.next_id < u64::MAX,
        ensures
            final(self).wf(),
            has_endpoint(old(self)@.sessions.sessions, addr) ==> {
                &&& id == endpoint_owner(old(self)@.sessions.sessions, addr)
                &&& final(self)@.events == old(self)@.events
                &&& final(self)@.sessions == (ConnectionManagerView {
                    sessions: old(self)@.sessions.sessions.insert(
                        id,
                        ClientSession { last_heard_from: now, ..old(self)@.sessions.sessions[id] },
                    ),
                    ..old(self)@.sessions
                })
            },
            !has_endpoint(old(self)@.sessions.sessions, addr) ==> {
                &&& id == old(self)@.sessions.next_id
                &&& final(self)@.events == old(self)@.events.push(
                    ServerEventView::ClientConnected { client_id: id },
                )
                &&& final(self)@.sessions == (ConnectionManagerView {
                    sessions: old(self)@.sessions.sessions.insert(
                        id,
                        ClientSession { id, addr, last_heard_from: now },
                    ),
                    next_id: (id + 1) as u64,
                })
            },
    {
        let (id, created) = self.sessions.get_or_create(addr, now);
        if created {
            self.pending_events.push(ServerEvent::ClientConnected { client_id: id });
            proof {
                assert(self@.events =~= old(self)@.events.push(ServerEventView::ClientConnected { client_id: id }));
            }
        }
        let ghost mid = self@.sessions;
        self.sessions.touch(id, now);
        proof {
            if created {
                assert(self@.sessions.sessions =~= mid.sessions);
            }
        }
        id
    }

    /// The channel of `client_id` decoded `payloads`: each becomes an event,
    /// in order.
    pub fn deliver(&mut self, client_id: ClientId, payloads: Vec<Vec<u8>>)
        ensures
            final(self)@ == (PaperTransportView {
                events: old(self)@.events + payload_events(
                    client_id,
                    payloads@.map_values(|p: Vec<u8>| p@),
                ),
                ..old(self)@
            }),
    {
        let ghost start = self@.events;
        let ghost ps = payloads@.map_values(|p: Vec<u8>| p@);
        let mut payloads = payloads;
        let mut taken: Vec<Vec<u8>> = Vec::new();
        std::mem::swap(&mut taken, &mut payloads);
        let mut k: usize = 0;
        proof {
            assert(payload_events(client_id, ps.take(0)) =~= Seq::<ServerEventView>::empty());
            assert(self@.events =~= start + payload_events(client_id, ps.take(0)));
        }
        while k < taken.len()
            invariant
                k <= taken@.len(),
                ps == taken@.map_values(|p: Vec<u8>| p@),
                self@.sessions == old(self)@.sessions,
                self@.events == start + payload_events(client_id, ps.take(k as int)),
            decreases taken.len() - k,
        {
            let data = vstd::slice::slice_to_vec(taken[k].as_slice());
            let ghost before = self.pending_events@;
            self.pending_events.push(
                ServerEvent::PacketReceived { client_id, data, channel: TransferChannels::Reliable },
            );
            proof {
                let e = ServerEventView::PacketReceived {
                    client_id,
                    data: ps[k as int],
                    channel: TransferChannels::Reliable,
                };
                assert(server_events_view(self.pending_events@) =~= server_events_view(before).push(e));
                assert(ps.take(k + 1) =~= ps.take(k as int).push(ps[k as int]));
                assert(payload_events(client_id, ps.take(k + 1)) =~= payload_events(
                    client_id,
                    ps.take(k as int),
                ).push(e));
            }
            k += 1;
        }
        proof {
            assert(ps.take(ps.len() as int) =~= ps);
        }
    }

    /// Drops `target`: its session closes and its disconnection is
    /// reported, if it had a session.
    pub fn disconnect_client(&mut self, target: ClientId)
        requires
            old(self).wf(),
        ensures
            final(self).wf(),
            old(self)@.sessions.sessions.contains_key(target) ==> final(self)@ == (PaperTransportView {
                sessions: ConnectionManagerView {
                    sessions: old(self)@.sessions.sessions.remove(target),
                    ..old(self)@.sessions
                },
                events: old(self)@.events.push(ServerEventView::ClientDisconnected { client_id: target }),
            }),
            !old(self)@.sessions.sessions.contains_key(target) ==> final(self)@ == old(self)@,
    {
        if self.sessions.get_by_id(target).is_some() {
            self.sessions.remove_session(target);
            self.pending_events.push(ServerEvent::ClientDisconnected { client_id: target });
            proof {
                assert(self@.events =~= old(self)@.events.push(
                    ServerEventView::ClientDisconnected { client_id: target },
                ));
            }
        }
    }

    /// Drops every client silent longer than `timeout` at `now`, reporting
    /// each disconnection (in no particular order).
    pub fn cleanup_sessions(&mut self, now: u128, timeout: u128)
        requires
            old(self).wf(),
        ensures
            final(self).wf(),
            final(self)@.sessions == (ConnectionManagerView {
                sessions: old(self)@.sessions.sessions.remove_keys(
                    expired_ids(old(self)@.sessions.sessions, now, timeout),
                ),
                ..old(self)@.sessions
            }),
            exists|ids: Seq<ClientId>|
                #![trigger disconnections(ids)]
                {
                    &&& ids.no_duplicates()
                    &&& ids.to_set() == expired_ids(old(self)@.sessions.sessions, now, timeout)
                    &&& final(self)@.events == old(self)@.events + disconnections(ids)
                },
    {
        let ghost start = self@.events;
        let expired = self.sessions.cleanup_sessions(now, timeout);
        let ghost s1 = self@.sessions;
        let mut k: usize = 0;
        proof {
            assert(disconnections(expired@.take(0)) =~= Seq::<ServerEventView>::empty());
            assert(self@.events =~= start + disconnections(expired@.take(0)));
        }
        while k < expired.len()
            invariant
                k <= expired@.len(),
                self@.events == start + disconnections(expired@.take(k as int)),
                self@.sessions == s1,
                crate::udp::sessions::sessions_wf(s1),
            decreases expired.len() - k,
        {
            let ghost before = self.pending_events@;
            let ghost sess = self@.sessions;
            self.pending_events.push(ServerEvent::ClientDisconnected { client_id: expired[k] });
            proof {
                let e = ServerEventView::ClientDisconnected { client_id: expired@[k as int] };
                assert(server_events_view(self.pending_events@) =~= server_events_view(before).push(e));
                assert(expired@.take(k + 1) =~= expired@.take(k as int).push(expired@[k as int]));
                assert(disconnections(expired@.take(k + 1)) =~= disconnections(expired@.take(k as int)).push(e));
            }
            k += 1;
        }
        proof {
            assert(expired@.take(expired@.len() as int) =~= expired@);
        }
    }

    /// Hands out the events not yet taken, oldest first.
    pub fn take_events(&mut self) -> (r: Vec<ServerEvent>)
        ensures
            server_events_view(r@) == old(self)@.events,
            final(self)@ == (PaperTransportView { events: Seq::empty(), ..old(self)@ }),
    {
        let mut taken: Vec<ServerEvent> = Vec::new();
        std::mem::swap(&mut taken, &mut self.pending_events);
        proof {
            assert(self@.events =~= Seq::<ServerEventView>::empty());
        }
        taken
    }
}

} // verus!
