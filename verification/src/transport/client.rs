//! The client end of the datagram transport. Every datagram starts with its
//! kind: a reliable payload (kind 0) carries its big-endian sequence number
//! and then the payload; an unreliable payload (kind 1) carries the payload
//! alone; an acknowledgement (kind 2) carries the sequence number it
//! acknowledges. Reliable payloads are acknowledged, handed on in sequence
//! order and sent again until acknowledged. The socket and the clock stay
//! with the program around this logic, which hands it each received
//! datagram and sends the frames it returns.
use vstd::prelude::*;
use vstd::slice::{slice_subrange, slice_to_vec};
use crate::transport::common::TransferChannels;
use crate::transport::reliability::{
    acks_view, after_send, elapsed, payloads_view, receive_spec, resend_list, resends_view, restamp, ReceiverView,
    ReliableReceiver, ReliableSender, SenderView, SequenceNumber, RESEND_CHECK_NANOS,
};

verus! {

/// What the client end reports.
#[derive(Debug, Clone)]
pub enum ClientEvent {
    Connected,
    Disconnected,
    PacketReceived { data: Vec<u8>, channel: TransferChannels },
}

pub enum ClientEventView {
    Connected,
    Disconnected,
    PacketReceived { data: Seq<u8>, channel: TransferChannels },
}

impl View for ClientEvent {
    type V = ClientEventView;

    open spec fn view(&self) -> ClientEventView {
        match self {
            ClientEvent::Connected => ClientEventView::Connected,
            ClientEvent::Disconnected => ClientEventView::Disconnected,
            ClientEvent::PacketReceived { data, channel } => ClientEventView::PacketReceived {
                data: data@,
                channel: *channel,
            },
        }
    }
}

pub open spec fn events_view(s: Seq<ClientEvent>) -> Seq<ClientEventView> {
    s.map_values(|e: ClientEvent| e@)
}

/// The kind of a datagram carrying a reliable payload.
pub const RELIABLE_FRAME: u8 = 0;

/// The kind of a datagram carrying an unreliable payload.
pub const UNRELIABLE_FRAME: u8 = 1;

/// The kind of a datagram carrying an acknowledgement.
pub const ACK_FRAME: u8 = 2;

/// How often overdue reliable payloads are looked for, at most.
pub const RESEND_INTERVAL_NANOS: u128 = 50_000_000;

/// How often waiting acknowledgements are sent, at most.
pub const ACK_INTERVAL_NANOS: u128 = 10_000_000;

/// The four big-endian bytes of `n`.
pub open spec fn u32_wire(n: u32) -> Seq<u8> {
    seq![(n >> 24u32) as u8, (n >> 16u32) as u8, (n >> 8u32) as u8, n as u8]
}

/// The number whose big-endian bytes start `b`.
pub open spec fn u32_from_wire(b: Seq<u8>) -> u32
    recommends
        b.len() >= 4,
{
    (b[0] as u32) << 24u32 | (b[1] as u32) << 16u32 | (b[2] as u32) << 8u32 | (b[3] as u32)
}

/// A reliable payload `data` numbered `seq` on the wire.
pub open spec fn reliable_frame(seq: u32, data: Seq<u8>) -> Seq<u8> {
    seq![RELIABLE_FRAME] + u32_wire(seq) + data
}

/// An unreliable payload on the wire.
pub open spec fn unreliable_frame(data: Seq<u8>) -> Seq<u8> {
    seq![UNRELIABLE_FRAME] + data
}

/// The acknowledgement of `seq` on the wire.
pub open spec fn ack_frame(seq: u32) -> Seq<u8> {
    seq![ACK_FRAME] + u32_wire(seq)
}

pub open spec fn frames_view(s: Seq<Vec<u8>>) -> Seq<Seq<u8>> {
    s.map_values(|f: Vec<u8>| f@)
}

/// The payloads handed on, as events.
pub open spec fn delivered(payloads: Seq<Seq<u8>>) -> Seq<ClientEventView> {
    payloads.map_values(
        |p: Seq<u8>| ClientEventView::PacketReceived { data: p, channel: TransferChannels::Reliable },
    )
}

/// The client end's state.
pub struct ClientTransport {
    reliable_sender: ReliableSender,
    reliable_receiver: ReliableReceiver,
    pending_events: Vec<ClientEvent>,
    last_resend_check: u128,
    last_ack_send: u128,
}

pub struct ClientTransportView {
    pub sender: SenderView,
    pub receiver: ReceiverView,
    /// Events not yet taken, oldest first.
    pub events: Seq<ClientEventView>,
    /// When overdue payloads were last looked for (sender's clock).
    pub last_resend_check: u128,
    /// When acknowledgements were last sent (sender's clock).
    pub last_ack_send: u128,
}

impl View for ClientTransport {
    type V = ClientTransportView;

    closed spec fn view(&self) -> ClientTransportView {
        ClientTransportView {
            sender: self.reliable_sender@,
            receiver: self.reliable_receiver@,
            events: events_view(self.pending_events@),
            last_resend_check: self.last_resend_check,
            last_ack_send: self.last_ack_send,
        }
    }
}

/// What taking in the datagram made of the first `len` bytes of `buf` does
/// (the sequence number of a payload or acknowledgement is read from the
/// four bytes after the kind).
pub open spec fn datagram_spec(v: ClientTransportView, buf: Seq<u8>, len: int) -> ClientTransportView {
    if len == 0 {
        v
    } else if buf[0] == RELIABLE_FRAME {
        let received = receive_spec(v.receiver, u32_from_wire(buf.subrange(1, 5)), buf.subrange(5, len));
        ClientTransportView {
            sender: SenderView { pending_acks: v.sender.pending_acks + received.1, ..v.sender },
            receiver: ReceiverView { ordered: Seq::empty(), ..received.0 },
            events: v.events + delivered(received.0.ordered),
            ..v
        }
    } else if buf[0] == UNRELIABLE_FRAME {
        ClientTransportView {
            events: v.events.push(
                ClientEventView::PacketReceived {
                    data: buf.subrange(1, len),
                    channel: TransferChannels::Unreliable,
                },
            ),
            ..v
        }
    } else if buf[0] == ACK_FRAME {
        ClientTransportView {
            sender: SenderView { sent: v.sender.sent.remove(u32_from_wire(buf.subrange(1, 5))), ..v.sender },
            ..v
        }
    } else {
        v
    }
}

/// What looking for work at `now` does: overdue payloads are sent again at
/// most every [`RESEND_INTERVAL_NANOS`], waiting acknowledgements at most
/// every [`ACK_INTERVAL_NANOS`]; `frames` is what goes out.
pub open spec fn poll_ok(v: ClientTransportView, now: u128, v2: ClientTransportView, frames: Seq<Seq<u8>>) -> bool {
    let resend_due = elapsed(now, v.last_resend_check) > RESEND_INTERVAL_NANOS;
    let ack_due = elapsed(now, v.last_ack_send) > ACK_INTERVAL_NANOS;
    let s1 = if resend_due && elapsed(now, v.sender.last_resend_check) >= RESEND_CHECK_NANOS {
        SenderView { sent: restamp(v.sender.sent, now, v.sender.ack_timeout), last_resend_check: now, ..v.sender }
    } else {
        v.sender
    };
    let acks = if ack_due {
        s1.pending_acks.map_values(|s: u32| ack_frame(s))
    } else {
        Seq::empty()
    };
    &&& v2 == ClientTransportView {
        sender: if ack_due {
            SenderView { pending_acks: Seq::empty(), ..s1 }
        } else {
            s1
        },
        last_resend_check: if resend_due {
            now
        } else {
            v.last_resend_check
        },
        last_ack_send: if ack_due {
            now
        } else {
            v.last_ack_send
        },
        ..v
    }
    &&& if resend_due && elapsed(now, v.sender.last_resend_check) >= RESEND_CHECK_NANOS {
        exists|ks: Seq<u32>|
            #![trigger resend_list(v.sender.sent, ks, now, v.sender.ack_timeout)]
            {
                &&& ks.no_duplicates()
                &&& ks.to_set() == v.sender.sent.dom()
                &&& frames == resend_list(v.sender.sent, ks, now, v.sender.ack_timeout).map_values(
                    |e: (u32, Seq<u8>)| reliable_frame(e.0, e.1),
                ) + acks
            }
    } else {
        frames == acks
    }
}

fn push_u32(buf: &mut Vec<u8>, n: u32)
    ensures
        final(buf)@ == old(buf)@ + u32_wire(n),
{
    buf.push((n >> 24u32) as u8);
    buf.push((n >> 16u32) as u8);
    buf.push((n >> 8u32) as u8);
    buf.push(n as u8);
    assert(buf@ =~= old(buf)@ + u32_wire(n));
}

fn push_all(buf: &mut Vec<u8>, data: &[u8])
    ensures
        final(buf)@ == old(buf)@ + data@,
{
    let mut k: usize = 0;
    while k < data.len()
        invariant
            k <= data@.len(),
            buf@ == old(buf)@ + data@.take(k as int),
        decreases data.len() - k,
    {
        buf.push(data[k]);
        proof {
            assert(data@.take(k + 1) =~= data@.take(k as int).push(data@[k as int]));
            assert(buf@ =~= old(buf)@ + data@.take(k + 1));
        }
        k += 1;
    }
    proof {
        assert(data@.take(data@.len() as int) =~= data@);
    }
}

impl ClientTransport {
    pub open spec fn wf(&self) -> bool {
        crate::transport::reliability::receiver_wf(self@.receiver)
    }

    /// A fresh client end: nothing sent, nothing received.
    pub fn new() -> (r: Self)
        ensures
            r.wf(),
            r@.events == Seq::<ClientEventView>::empty(),
            r@.sender.next == 0,
            r@.sender.sent == Map::<u32, crate::transport::reliability::SentView>::empty(),
            r@.sender.pending_acks == Seq::<u32>::empty(),
            r@.sender.ack_timeout == crate::transport::reliability::ACK_TIMEOUT_NANOS,
            r@.sender.last_resend_check == 0,
            r@.receiver.highest == 0,
            r@.receiver.expected == 0,
            r@.receiver.buffered == Map::<u32, Seq<u8>>::empty(),
            r@.receiver.ordered == Seq::<Seq<u8>>::empty(),
            r@.last_resend_check == 0,
            r@.last_ack_send == 0,
    {
        let r = Self {
            reliable_sender: ReliableSender::new(),
            reliable_receiver: ReliableReceiver::new(),
            pending_events: Vec::new(),
            last_resend_check: 0,
            last_ack_send: 0,
        };
        proof {
            assert(r@.events =~= Seq::<ClientEventView>::empty());
        }
        r
    }

    /// Takes in the datagram made of the first `len` bytes of the receive
    /// buffer `buf` (which keeps at least the bytes a sequence number needs).
    pub fn receive_datagram(&mut self, buf: &[u8], len: usize)
        requires
            old(self).wf(),
            len <= buf@.len(),
            buf@.len() >= 5,
            len > 0 && buf@[0] == RELIABLE_FRAME ==> len >= 5,
        ensures
            final(self).wf(),
            final(self)@ == datagram_spec(old(self)@, buf@, len as int),
    {
        if len == 0 {
            return;
        }
        let kind = buf[0];
        if kind == RELIABLE_FRAME {
            let seq = ((buf[1] as u32) << 24u32) | ((buf[2] as u32) << 16u32) | ((buf[3] as u32) << 8u32) | (
            buf[4] as u32);
            let data = slice_to_vec(slice_subrange(buf, 5, len));
            proof {
                assert(seq == u32_from_wire(buf@.subrange(1, 5)));
            }
            let ghost e0 = self@.events;
            let acks = self.reliable_receiver.receive(SequenceNumber::new(seq), data);
            let ghost r1 = self.reliable_receiver@;
            let mut i: usize = 0;
            let ghost s0 = self.reliable_sender@;
            while i < acks.len()
                invariant
                    i <= acks@.len(),
                    self.reliable_receiver@ == r1,
                    self.pending_events@ == old(self).pending_events@,
                    self.last_resend_check == old(self).last_resend_check,
                    self.last_ack_send == old(self).last_ack_send,
                    self.reliable_sender@ == (SenderView {
                        pending_acks: s0.pending_acks + acks_view(acks@.take(i as int)),
                        ..s0
                    }),
                decreases acks.len() - i,
            {
                self.reliable_sender.queue_ack(acks[i]);
                proof {
                    assert(acks_view(acks@.take(i + 1)) =~= acks_view(acks@.take(i as int)).push(
                        acks@[i as int].0,
                    ));
                    assert(self.reliable_sender@.pending_acks =~= s0.pending_acks + acks_view(acks@.take(i + 1)));
                }
                i += 1;
            }
            proof {
                assert(acks@.take(acks@.len() as int) =~= acks@);
            }
            let packets = self.reliable_receiver.take_all_packets();
            let ghost r2 = self.reliable_receiver@;
            let ghost s2 = self.reliable_sender@;
            let mut k: usize = 0;
            proof {
                assert(e0 + delivered(payloads_view(packets@.take(0))) =~= e0);
            }
            while k < packets.len()
                invariant
                    k <= packets@.len(),
                    self.reliable_receiver@ == r2,
                    self.reliable_sender@ == s2,
                    self.last_resend_check == old(self).last_resend_check,
                    self.last_ack_send == old(self).last_ack_send,
                    events_view(self.pending_events@) == e0 + delivered(payloads_view(packets@.take(k as int))),
                decreases packets.len() - k,
            {
                let p = slice_to_vec(packets[k].as_slice());
                let ghost eb = self.pending_events@;
                self.pending_events.push(
                    ClientEvent::PacketReceived { data: p, channel: TransferChannels::Reliable },
                );
                proof {
                    assert(events_view(self.pending_events@) =~= events_view(eb).push(
                        ClientEventView::PacketReceived { data: packets@[k as int]@, channel: TransferChannels::Reliable },
                    ));
                    assert(packets@.take(k + 1) =~= packets@.take(k as int).push(packets@[k as int]));
                    assert(payloads_view(packets@.take(k + 1)) =~= payloads_view(packets@.take(k as int)).push(
                        packets@[k as int]@,
                    ));
                    assert(delivered(payloads_view(packets@.take(k + 1))) =~= delivered(
                        payloads_view(packets@.take(k as int)),
                    ).push(ClientEventView::PacketReceived { data: packets@[k as int]@, channel: TransferChannels::Reliable }));
                    assert(events_view(self.pending_events@) =~= e0 + delivered(
                        payloads_view(packets@.take(k + 1)),
                    ));
                }
                k += 1;
            }
            proof {
                assert(packets@.take(packets@.len() as int) =~= packets@);
                assert(self@.events =~= datagram_spec(old(self)@, buf@, len as int).events);
                assert(self@.sender.pending_acks =~= datagram_spec(old(self)@, buf@, len as int).sender.pending_acks);
                assert(self@ == datagram_spec(old(self)@, buf@, len as int));
            }
        } else if kind == UNRELIABLE_FRAME {
            let data = slice_to_vec(slice_subrange(buf, 1, len));
            self.pending_events.push(
                ClientEvent::PacketReceived { data, channel: TransferChannels::Unreliable },
            );
            proof {
                assert(self@.events =~= datagram_spec(old(self)@, buf@, len as int).events);
            }
        } else if kind == ACK_FRAME {
            let seq = ((buf[1] as u32) << 24u32) | ((buf[2] as u32) << 16u32) | ((buf[3] as u32) << 8u32) | (
            buf[4] as u32);
            proof {
                assert(seq == u32_from_wire(buf@.subrange(1, 5)));
            }
            self.reliable_sender.ack_received(SequenceNumber::new(seq));
        }
    }

    /// Hands out the events not yet taken, oldest first.
    pub fn take_events(&mut self) -> (r: Vec<ClientEvent>)
        ensures
            events_view(r@) == old(self)@.events,
            final(self)@ == (ClientTransportView { events: Seq::empty(), ..old(self)@ }),
    {
        let mut taken: Vec<ClientEvent> = Vec::new();
        std::mem::swap(&mut taken, &mut self.pending_events);
        proof {
            assert(self@.events =~= Seq::<ClientEventView>::empty());
        }
        taken
    }

    /// The frame that carries `data` on `channel`; a reliable payload is
    /// numbered and kept until acknowledged.
    pub fn send(&mut self, data: Vec<u8>, channel: TransferChannels) -> (frame: Vec<u8>)
        ensures
            channel == TransferChannels::Unreliable ==> frame@ == unreliable_frame(data@) && final(self)@
                == old(self)@,
            channel == TransferChannels::Reliable ==> {
                &&& frame@ == reliable_frame(old(self)@.sender.next, data@)
                &&& exists|now: u128|
                    #[trigger] after_send(old(self)@.sender, data@, now) == final(self)@.sender
                &&& final(self)@ == (ClientTransportView { sender: final(self)@.sender, ..old(self)@ })
            },
    {
        let mut frame: Vec<u8> = Vec::new();
        match channel {
            TransferChannels::Reliable => {
                let copy = slice_to_vec(data.as_slice());
                let seq = self.reliable_sender.send(copy);
                frame.push(RELIABLE_FRAME);
                push_u32(&mut frame, seq.0);
                push_all(&mut frame, data.as_slice());
                proof {
                    assert(frame@ =~= reliable_frame(seq.0, data@));
                }
            },
            TransferChannels::Unreliable => {
                frame.push(UNRELIABLE_FRAME);
                push_all(&mut frame, data.as_slice());
                proof {
                    assert(frame@ =~= unreliable_frame(data@));
                }
            },
        }
        frame
    }

    /// The frames of the acknowledgements waiting to be sent, oldest first.
    fn ack_frames(&mut self) -> (frames: Vec<Vec<u8>>)
        ensures
            frames_view(frames@) == old(self)@.sender.pending_acks.map_values(|s: u32| ack_frame(s)),
            final(self)@ == (ClientTransportView {
                sender: SenderView { pending_acks: Seq::empty(), ..old(self)@.sender },
                ..old(self)@
            }),
    {
        let acks = self.reliable_sender.get_pending_acks();
        let mut frames: Vec<Vec<u8>> = Vec::new();
        let mut i: usize = 0;
        while i < acks.len()
            invariant
                i <= acks@.len(),
                frames_view(frames@) == acks_view(acks@).take(i as int).map_values(|s: u32| ack_frame(s)),
            decreases acks.len() - i,
        {
            let mut f: Vec<u8> = Vec::new();
            f.push(ACK_FRAME);
            push_u32(&mut f, acks[i].0);
            let ghost fb = frames@;
            proof {
                assert(f@ =~= ack_frame(acks@[i as int].0));
            }
            frames.push(f);
            proof {
                assert(frames_view(frames@) =~= frames_view(fb).push(ack_frame(acks@[i as int].0)));
                let av = acks_view(acks@);
                assert(av.take(i + 1) =~= av.take(i as int).push(av[i as int]));
                assert(av.take(i + 1).map_values(|s: u32| ack_frame(s)) =~= av.take(i as int).map_values(
                    |s: u32| ack_frame(s),
                ).push(ack_frame(av[i as int])));
                assert(frames_view(frames@) =~= acks_view(acks@).take(i + 1).map_values(|s: u32| ack_frame(s)));
            }
            i += 1;
        }
        proof {
            assert(acks_view(acks@).take(acks@.len() as int) =~= acks_view(acks@));
        }
        frames
    }

    /// Looks for work at `now` on the sender's clock (see [`poll_ok`]) and
    /// returns the frames to send.
    pub fn poll_at(&mut self, now: u128) -> (frames: Vec<Vec<u8>>)
        ensures
            poll_ok(old(self)@, now, final(self)@, frames_view(frames@)),
    {
        let mut frames: Vec<Vec<u8>> = Vec::new();
        let since_resend = if now >= self.last_resend_check {
            now - self.last_resend_check
        } else {
            0
        };
        let ghost v0 = self@;
        if since_resend > RESEND_INTERVAL_NANOS {
            let resends = self.reliable_sender.get_resends_at(now);
            let mut i: usize = 0;
            while i < resends.len()
                invariant
                    i <= resends@.len(),
                    frames_view(frames@) == resends_view(resends@).take(i as int).map_values(
                        |e: (u32, Seq<u8>)| reliable_frame(e.0, e.1),
                    ),
                decreases resends.len() - i,
            {
                let mut f: Vec<u8> = Vec::new();
                f.push(RELIABLE_FRAME);
                push_u32(&mut f, resends[i].0.0);
                push_all(&mut f, resends[i].1.as_slice());
                let ghost fb = frames@;
                proof {
                    assert(f@ =~= reliable_frame(resends@[i as int].0.0, resends@[i as int].1@));
                }
                frames.push(f);
                proof {
                    let rv = resends_view(resends@);
                    assert(frames_view(frames@) =~= frames_view(fb).push(reliable_frame(rv[i as int].0, rv[i as int].1)));
                    assert(rv.take(i + 1) =~= rv.take(i as int).push(rv[i as int]));
                    assert(rv.take(i + 1).map_values(|e: (u32, Seq<u8>)| reliable_frame(e.0, e.1)) =~= rv.take(
                        i as int,
                    ).map_values(|e: (u32, Seq<u8>)| reliable_frame(e.0, e.1)).push(reliable_frame(rv[i as int].0, rv[i as int].1)));
                    assert(frames_view(frames@) =~= resends_view(resends@).take(i + 1).map_values(
                        |e: (u32, Seq<u8>)| reliable_frame(e.0, e.1),
                    ));
                }
                i += 1;
            }
            proof {
                assert(resends_view(resends@).take(resends@.len() as int) =~= resends_view(resends@));
            }
            self.last_resend_check = now;
        }
        let ghost mid = frames_view(frames@);
        let since_ack = if now >= self.last_ack_send {
            now - self.last_ack_send
        } else {
            0
        };
        if since_ack > ACK_INTERVAL_NANOS {
            let acks = self.ack_frames();
            let ghost before = frames@;
            let mut i: usize = 0;
            let mut acks = acks;
            let ghost all = frames_view(acks@);
            while i < acks.len()
                invariant
                    i <= acks@.len(),
                    frames_view(acks@) == all,
                    frames_view(frames@) == frames_view(before) + all.take(i as int),
                decreases acks.len() - i,
            {
                let f = slice_to_vec(acks[i].as_slice());
                let ghost fb = frames@;
                frames.push(f);
                proof {
                    assert(frames_view(frames@) =~= frames_view(fb).push(all[i as int]));
                    assert(all.take(i + 1) =~= all.take(i as int).push(all[i as int]));
                    assert(frames_view(frames@) =~= frames_view(before) + all.take(i + 1));
                }
                i += 1;
            }
            proof {
                assert(all.take(all.len() as int) =~= all);
            }
            self.last_ack_send = now;
        }
        proof {
            let resend_due = elapsed(now, v0.last_resend_check) > RESEND_INTERVAL_NANOS;
            if !resend_due {
                assert(mid =~= Seq::<Seq<u8>>::empty());
            }
            if !(elapsed(now, v0.last_ack_send) > ACK_INTERVAL_NANOS) {
                assert(frames_view(frames@) =~= mid + Seq::<Seq<u8>>::empty());
            }
            if resend_due && !(elapsed(now, v0.sender.last_resend_check) >= RESEND_CHECK_NANOS) {
                assert(mid =~= Seq::<Seq<u8>>::empty());
            }
        }
        frames
    }

    /// Looks for work now on the sender's clock (see [`poll_ok`]) and
    /// returns the frames to send. What the clock reads is not claimed.
    pub fn poll(&mut self) -> (frames: Vec<Vec<u8>>)
        ensures
            exists|now: u128| poll_ok(old(self)@, now, final(self)@, frames_view(frames@)),
    {
        let now = self.reliable_sender.now();
        self.poll_at(now)
    }
}

/// A sequence number reads back from its four bytes.
pub proof fn law_u32_wire_roundtrip(n: u32)
    ensures
        u32_from_wire(u32_wire(n)) == n,
{
    let b = u32_wire(n);
    let b0 = (n >> 24u32) as u8;
    let b1 = (n >> 16u32) as u8;
    let b2 = (n >> 8u32) as u8;
    let b3 = n as u8;
    assert(b[0] == b0 && b[1] == b1 && b[2] == b2 && b[3] == b3);
    assert(((b0 as u32) << 24u32 | (b1 as u32) << 16u32 | (b2 as u32) << 8u32 | (b3 as u32)) == n) by (bit_vector)
        requires
            b0 == (n >> 24u32) as u8,
            b1 == (n >> 16u32) as u8,
            b2 == (n >> 8u32) as u8,
            b3 == n as u8,
    ;
}

/// A reliable frame taken in reads back its sequence number and payload.
pub proof fn law_reliable_frame_reads_back(seq: u32, data: Seq<u8>)
    ensures
        ({
            let f = reliable_frame(seq, data);
            &&& f.len() >= 5
            &&& f[0] == RELIABLE_FRAME
            &&& u32_from_wire(f.subrange(1, 5)) == seq
            &&& f.subrange(5, f.len() as int) == data
        }),
{
    let f = reliable_frame(seq, data);
    assert(f.subrange(1, 5) =~= u32_wire(seq));
    assert(f.subrange(5, f.len() as int) =~= data);
    law_u32_wire_roundtrip(seq);
}

/// An acknowledgement frame taken in reads back its sequence number.
pub proof fn law_ack_frame_reads_back(seq: u32)
    ensures
        ack_frame(seq).len() == 5,
        ack_frame(seq)[0] == ACK_FRAME,
        u32_from_wire(ack_frame(seq).subrange(1, 5)) == seq,
{
    assert(ack_frame(seq).subrange(1, 5) =~= u32_wire(seq));
    law_u32_wire_roundtrip(seq);
}

/// Taking in the acknowledgement of `seq` forgets the payload numbered
/// `seq`, so no later look for overdue payloads sends it again.
pub proof fn law_acknowledgement_clears_payload(v: ClientTransportView, seq: u32)
    ensures
        datagram_spec(v, ack_frame(seq), 5).sender.sent == v.sender.sent.remove(seq),
        !datagram_spec(v, ack_frame(seq), 5).sender.sent.contains_key(seq),
{
    law_ack_frame_reads_back(seq);
}

} // verus!
