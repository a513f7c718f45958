//! Reliable, ordered delivery over datagrams: each reliable payload carries
//! a sequence number; the sender keeps what it sent until it is
//! acknowledged and sends it again when an acknowledgement is overdue; the
//! receiver acknowledges everything and hands payloads on in sequence order,
//! holding back those that arrive ahead of a gap.
use vstd::prelude::*;
use std::collections::HashMap;
use std::time::Instant;
use vstd::slice::slice_to_vec;
use vstd::std_specs::iter::IteratorSpec;

verus! {

broadcast use vstd::std_specs::hash::group_hash_axioms;

/// The successor of a sequence number; numbers wrap around after `u32::MAX`.
pub open spec fn seq_next(n: u32) -> u32 {
    if n == u32::MAX {
        0
    } else {
        (n + 1) as u32
    }
}

/// Whether `a` is at most half the number space ahead of `b`, counting
/// around the wrap (this holds of `a == b` too).
pub open spec fn seq_newer(a: u32, b: u32) -> bool {
    if a >= b {
        a - b < 2147483648
    } else {
        a - b + 4294967296 < 2147483648
    }
}

#[derive(Debug, Clone, Copy, PartialEq, Eq, Hash, Structural)]
pub struct SequenceNumber(pub u32);

impl SequenceNumber {
    pub fn new(num: u32) -> (r: Self)
        ensures
            r.0 == num,
    {
        SequenceNumber(num)
    }

    pub fn next(self) -> (r: Self)
        ensures
            r.0 == seq_next(self.0),
    {
        SequenceNumber(self.0.wrapping_add(1))
    }

    pub fn is_newer_than(self, other: SequenceNumber) -> (r: bool)
        ensures
            r == seq_newer(self.0, other.0),
    {
        let diff = self.0.wrapping_sub(other.0);
        diff < 2_147_483_648
    }
}

// ---------------------------------------------------------------------
// Clock
// ---------------------------------------------------------------------

#[verifier::external_type_specification]
#[verifier::external_body]
pub struct ExInstant(Instant);

/// Calls `Instant::now`. What the clock reads is not claimed.
#[verifier::external_body]
pub(crate) fn instant_now() -> Instant {
    Instant::now()
}

/// Calls `Instant::elapsed` and gives the duration in nanoseconds. What the
/// clock reads is not claimed.
#[verifier::external_body]
fn nanos_since(origin: &Instant) -> u128 {
    origin.elapsed().as_nanos()
}

/// Nanoseconds from `earlier` to `later`, zero if `later` is earlier.
pub open spec fn elapsed(later: u128, earlier: u128) -> int {
    if later >= earlier {
        later - earlier
    } else {
        0
    }
}

/// How long the sender waits for an acknowledgement before sending again.
pub const ACK_TIMEOUT_NANOS: u128 = 200_000_000;

/// How often the sender looks for overdue payloads at most.
pub const RESEND_CHECK_NANOS: u128 = 50_000_000;

// ---------------------------------------------------------------------
// Sender
// ---------------------------------------------------------------------

struct SentPacket {
    data: Vec<u8>,
    sent_at: u128,
    resend_count: u32,
}

/// A payload awaiting acknowledgement: its bytes, when it was last sent
/// (nanoseconds on the sender's clock), and how often it was sent again.
pub struct SentView {
    pub data: Seq<u8>,
    pub sent_at: u128,
    pub resend_count: u32,
}

pub struct ReliableSender {
    next_sequence_num: SequenceNumber,
    sent_packets: HashMap<u32, SentPacket>,
    ack_timeout: u128,
    last_resend_check: u128,
    pending_acks: Vec<SequenceNumber>,
    clock: Instant,
}

pub struct SenderView {
    /// The number the next payload will get.
    pub next: u32,
    /// The payloads not yet acknowledged, by sequence number.
    pub sent: Map<u32, SentView>,
    pub ack_timeout: u128,
    /// When overdue payloads were last looked for.
    pub last_resend_check: u128,
    /// Acknowledgements waiting to be sent, oldest first.
    pub pending_acks: Seq<u32>,
}

spec fn sent_view(p: SentPacket) -> SentView {
    SentView { data: p.data@, sent_at: p.sent_at, resend_count: p.resend_count }
}

pub open spec fn acks_view(v: Seq<SequenceNumber>) -> Seq<u32> {
    v.map_values(|s: SequenceNumber| s.0)
}

impl View for ReliableSender {
    type V = SenderView;

    closed spec fn view(&self) -> SenderView {
        SenderView {
            next: self.next_sequence_num.0,
            sent: self.sent_packets@.map_values(|p: SentPacket| sent_view(p)),
            ack_timeout: self.ack_timeout,
            last_resend_check: self.last_resend_check,
            pending_acks: acks_view(self.pending_acks@),
        }
    }
}

/// Whether a payload last sent at `sent_at` is overdue at `now`.
pub open spec fn overdue(sent_at: u128, now: u128, ack_timeout: u128) -> bool {
    elapsed(now, sent_at) > ack_timeout
}

/// A payload as it stands after a look for overdue payloads at `now`.
pub open spec fn stamp(p: SentView, now: u128, ack_timeout: u128) -> SentView {
    if overdue(p.sent_at, now, ack_timeout) {
        SentView { data: p.data, sent_at: now, resend_count: p.resend_count.wrapping_add(1) }
    } else {
        p
    }
}

/// Every payload as it stands after a look for overdue payloads at `now`.
pub open spec fn restamp(sent: Map<u32, SentView>, now: u128, ack_timeout: u128) -> Map<u32, SentView> {
    Map::new(|k: u32| sent.contains_key(k), |k: u32| stamp(sent[k], now, ack_timeout))
}

/// The overdue payloads among `keys`, in that order, with their bytes.
pub open spec fn resend_list(sent: Map<u32, SentView>, keys: Seq<u32>, now: u128, ack_timeout: u128) -> Seq<
    (u32, Seq<u8>),
>
    decreases keys.len(),
{
    if keys.len() == 0 {
        Seq::empty()
    } else {
        let prev = resend_list(sent, keys.drop_last(), now, ack_timeout);
        let k = keys.last();
        if sent.contains_key(k) && overdue(sent[k].sent_at, now, ack_timeout) {
            prev.push((k, sent[k].data))
        } else {
            prev
        }
    }
}

pub open spec fn resends_view(r: Seq<(SequenceNumber, Vec<u8>)>) -> Seq<(u32, Seq<u8>)> {
    r.map_values(|e: (SequenceNumber, Vec<u8>)| (e.0.0, e.1@))
}

/// The sender after numbering `data` and keeping it, sent at `now`.
pub open spec fn after_send(o: SenderView, data: Seq<u8>, now: u128) -> SenderView {
    SenderView {
        next: seq_next(o.next),
        sent: o.sent.insert(o.next, SentView { data, sent_at: now, resend_count: 0 }),
        ..o
    }
}

/// A look for overdue payloads at `now`: when at least the check interval
/// has passed since the last look, each payload whose last sending is more
/// than the timeout ago is returned (in the order in which the table of
/// payloads is walked) and stamped as sent at `now`; otherwise nothing
/// changes and nothing is returned.
pub open spec fn resends_ok(o: SenderView, now: u128, v2: SenderView, r: Seq<(u32, Seq<u8>)>) -> bool {
    &&& elapsed(now, o.last_resend_check) < RESEND_CHECK_NANOS ==> {
        &&& r.len() == 0
        &&& v2 == o
    }
    &&& elapsed(now, o.last_resend_check) >= RESEND_CHECK_NANOS ==> {
        &&& v2 == (SenderView {
            sent: restamp(o.sent, now, o.ack_timeout),
            last_resend_check: now,
            ..o
        })
        &&& exists|ks: Seq<u32>|
            {
                &&& ks.no_duplicates()
                &&& ks.to_set() == o.sent.dom()
                &&& r == resend_list(o.sent, ks, now, o.ack_timeout)
            }
    }
}

impl ReliableSender {
    pub fn new() -> (s: Self)
        ensures
            s@.next == 0,
            s@.sent == Map::<u32, SentView>::empty(),
            s@.ack_timeout == ACK_TIMEOUT_NANOS,
            s@.last_resend_check == 0,
            s@.pending_acks == Seq::<u32>::empty(),
            s@ == fresh_sender(),
    {
        let s = Self {
            next_sequence_num: SequenceNumber::new(0),
            sent_packets: HashMap::new(),
            ack_timeout: ACK_TIMEOUT_NANOS,
            last_resend_check: 0,
            pending_acks: Vec::new(),
            clock: instant_now(),
        };
        proof {
            assert(s@.sent =~= Map::<u32, SentView>::empty());
            assert(s@.pending_acks =~= Seq::<u32>::empty());
        }
        s
    }

    /// The sender's clock, in nanoseconds since it was created.
    pub fn now(&self) -> u128 {
        nanos_since(&self.clock)
    }

    /// Numbers `data` and keeps it until acknowledged; the clock reads `now`.
    pub fn send_at(&mut self, data: Vec<u8>, now: u128) -> (seq: SequenceNumber)
        ensures
            seq.0 == old(self)@.next,
            final(self)@ == (SenderView {
                next: seq_next(old(self)@.next),
                sent: old(self)@.sent.insert(
                    seq.0,
                    SentView { data: data@, sent_at: now, resend_count: 0 },
                ),
                ..old(self)@
            }),
    {
        let seq = self.next_sequence_num;
        self.next_sequence_num = seq.next();
        self.sent_packets.insert(seq.0, SentPacket { data, sent_at: now, resend_count: 0 });
        proof {
            assert(self@.sent =~= old(self)@.sent.insert(
                seq.0,
                SentView { data: data@, sent_at: now, resend_count: 0 },
            ));
        }
        seq
    }

    /// Numbers `data` and keeps it until acknowledged, stamped with the
    /// clock's reading (which is not claimed).
    pub fn send(&mut self, data: Vec<u8>) -> (seq: SequenceNumber)
        ensures
            seq.0 == old(self)@.next,
            exists|now: u128| #[trigger] after_send(old(self)@, data@, now) == final(self)@,
    {
        let now = self.now();
        let ghost d = data@;
        let seq = self.send_at(data, now);
        proof {
            assert(after_send(old(self)@, d, now).sent =~= self@.sent);
            assert(after_send(old(self)@, d, now) == self@);
        }
        seq
    }

    /// The overdue payloads, sent again at `now`: when at least the check
    /// interval has passed since the last look, each payload whose last
    /// sending is more than the timeout ago is returned (in the order in
    /// which the table of payloads is walked) and stamped as sent now;
    /// otherwise nothing changes.
    pub fn get_resends_at(&mut self, now: u128) -> (r: Vec<(SequenceNumber, Vec<u8>)>)
        ensures
            resends_ok(old(self)@, now, final(self)@, resends_view(r@)),
    {
        let mut resends: Vec<(SequenceNumber, Vec<u8>)> = Vec::new();
        let since = if now >= self.last_resend_check {
            now - self.last_resend_check
        } else {
            0
        };
        if since < RESEND_CHECK_NANOS {
            return resends;
        }
        self.last_resend_check = now;
        let mut keys: Vec<u32> = Vec::new();
        let ghost ks = vstd::std_specs::hash::spec_keys_iter(&self.sent_packets).remaining();
        for k in iter: self.sent_packets.keys()
            invariant
                iter.seq() == ks,
                keys@.len() == iter.index(),
                forall|i: int| 0 <= i < keys@.len() ==> keys@[i] == *iter.seq()[i],
        {
            keys.push(*k);
        }
        proof {
            assert(keys@ =~= ks.unref());
        }
        let ghost o = old(self)@;
        let mut i: usize = 0;
        while i < keys.len()
            invariant
                keys@.to_set() == o.sent.dom(),
                keys@.no_duplicates(),
                i <= keys@.len(),
                self@.next == o.next,
                self@.ack_timeout == o.ack_timeout,
                self@.pending_acks == o.pending_acks,
                self@.last_resend_check == now,
                self@.sent.dom() == o.sent.dom(),
                forall|k: u32| #[trigger] self@.sent.contains_key(k) ==> self@.sent[k] == (if keys@.take(
                    i as int,
                ).contains(k) {
                    stamp(o.sent[k], now, o.ack_timeout)
                } else {
                    o.sent[k]
                }),
                resends_view(resends@) == resend_list(o.sent, keys@.take(i as int), now, o.ack_timeout),
            decreases keys.len() - i,
        {
            let k = keys[i];
            proof {
                assert(keys@.to_set().contains(k));
                assert(!keys@.take(i as int).contains(k));
                assert(self@.sent[k] == o.sent[k]);
            }
            let packet = self.sent_packets.remove(&k).unwrap();
            let due = if now >= packet.sent_at {
                now - packet.sent_at
            } else {
                0
            };
            if due > self.ack_timeout {
                let copy = slice_to_vec(packet.data.as_slice());
                resends.push((SequenceNumber(k), copy));
                self.sent_packets.insert(
                    k,
                    SentPacket {
                        data: packet.data,
                        sent_at: now,
                        resend_count: packet.resend_count.wrapping_add(1),
                    },
                );
            } else {
                self.sent_packets.insert(k, packet);
            }
            proof {
                let t1 = keys@.take(i + 1);
                assert(t1 =~= keys@.take(i as int).push(k));
                assert(t1.drop_last() =~= keys@.take(i as int));
                assert(resends_view(resends@) =~= resend_list(o.sent, t1, now, o.ack_timeout));
                assert forall|kk: u32| #[trigger] self@.sent.contains_key(kk) implies self@.sent[kk] == (
                if t1.contains(kk) {
                    stamp(o.sent[kk], now, o.ack_timeout)
                } else {
                    o.sent[kk]
                }) by {
                    if kk != k {
                        assert(t1.contains(kk) == keys@.take(i as int).contains(kk));
                    } else {
                        assert(t1.contains(kk));
                    }
                }
            }
            i += 1;
        }
        proof {
            assert(keys@.take(keys@.len() as int) =~= keys@);
            assert forall|kk: u32| #[trigger] self@.sent.contains_key(kk) implies self@.sent[kk] == stamp(
                o.sent[kk],
                now,
                o.ack_timeout,
            ) by {
                assert(keys@.to_set().contains(kk));
                assert(keys@.take(i as int).contains(kk));
            }
            assert(self@.sent =~= restamp(o.sent, now, o.ack_timeout));
        }
        resends
    }

    /// The overdue payloads, sent again now (see [`Self::get_resends_at`]);
    /// what the clock reads is not claimed.
    pub fn get_resends(&mut self) -> (r: Vec<(SequenceNumber, Vec<u8>)>)
        ensures
            exists|now: u128| resends_ok(old(self)@, now, final(self)@, resends_view(r@)),
    {
        let now = self.now();
        self.get_resends_at(now)
    }

    /// Forgets the payload numbered `seq`: it was acknowledged.
    pub fn ack_received(&mut self, seq: SequenceNumber)
        ensures
            final(self)@ == (SenderView { sent: old(self)@.sent.remove(seq.0), ..old(self)@ }),
    {
        self.sent_packets.remove(&seq.0);
        proof {
            assert(self@.sent =~= old(self)@.sent.remove(seq.0));
        }
    }

    /// Whether some payload awaits acknowledgement.
    pub fn has_unacked(&self) -> (r: bool)
        ensures
            r == !self@.sent.is_empty(),
    {
        let r = !self.sent_packets.is_empty();
        proof {
            if self.sent_packets@.is_empty() {
                assert(self@.sent =~= Map::<u32, SentView>::empty());
            } else {
                let k = self.sent_packets@.dom().choose();
                assert(self@.sent.contains_key(k));
            }
        }
        r
    }

    /// Records that the payload numbered `seq` must be acknowledged.
    pub fn queue_ack(&mut self, seq: SequenceNumber)
        ensures
            final(self)@ == (SenderView {
                pending_acks: old(self)@.pending_acks.push(seq.0),
                ..old(self)@
            }),
    {
        self.pending_acks.push(seq);
        proof {
            assert(acks_view(self.pending_acks@) =~= acks_view(old(self).pending_acks@).push(seq.0));
        }
    }

    /// Hands out the acknowledgements waiting to be sent, oldest first.
    pub fn get_pending_acks(&mut self) -> (r: Vec<SequenceNumber>)
        ensures
            acks_view(r@) == old(self)@.pending_acks,
            final(self)@ == (SenderView { pending_acks: Seq::<u32>::empty(), ..old(self)@ }),
    {
        let mut taken: Vec<SequenceNumber> = Vec::new();
        std::mem::swap(&mut taken, &mut self.pending_acks);
        proof {
            assert(acks_view(self.pending_acks@) =~= Seq::<u32>::empty());
        }
        taken
    }
}

/// A payload acknowledged is never sent again: once `seq` is gone from the
/// payloads awaiting acknowledgement, no look for overdue payloads returns
/// it, whatever the clock reads.
pub proof fn law_acknowledged_payload_is_not_resent(
    sent: Map<u32, SentView>,
    seq: u32,
    keys: Seq<u32>,
    now: u128,
    ack_timeout: u128,
)
    requires
        !sent.contains_key(seq),
    ensures
        forall|i: int|
            0 <= i < resend_list(sent, keys, now, ack_timeout).len() ==> (#[trigger] resend_list(
                sent,
                keys,
                now,
                ack_timeout,
            )[i]).0 != seq,
    decreases keys.len(),
{
    if keys.len() > 0 {
        law_acknowledged_payload_is_not_resent(sent, seq, keys.drop_last(), now, ack_timeout);
        let prev = resend_list(sent, keys.drop_last(), now, ack_timeout);
        let r = resend_list(sent, keys, now, ack_timeout);
        assert forall|i: int| 0 <= i < r.len() implies (#[trigger] r[i]).0 != seq by {
            if i < prev.len() {
                assert(r[i] == prev[i]);
            }
        }
    }
}

/// What a look for overdue payloads returns: exactly the overdue payloads,
/// each once, with the bytes that were sent.
pub proof fn law_resend_list_is_the_overdue_payloads(
    sent: Map<u32, SentView>,
    keys: Seq<u32>,
    now: u128,
    ack_timeout: u128,
)
    requires
        keys.no_duplicates(),
    ensures
        ({
            let r = resend_list(sent, keys, now, ack_timeout);
            &&& forall|i: int| 0 <= i < r.len() ==> {
                let k = (#[trigger] r[i]).0;
                &&& keys.contains(k)
                &&& sent.contains_key(k)
                &&& overdue(sent[k].sent_at, now, ack_timeout)
                &&& r[i].1 == sent[k].data
            }
            &&& forall|i: int, j: int| 0 <= i < j < r.len() ==> (#[trigger] r[i]).0 != (#[trigger] r[j]).0
            &&& forall|k: u32|
                keys.contains(k) && sent.contains_key(k) && overdue(sent[k].sent_at, now, ack_timeout)
                    ==> exists|i: int| 0 <= i < r.len() && (#[trigger] r[i]).0 == k
        }),
    decreases keys.len(),
{
    if keys.len() > 0 {
        let init = keys.drop_last();
        let last = keys.last();
        assert(init.no_duplicates());
        law_resend_list_is_the_overdue_payloads(sent, init, now, ack_timeout);
        let prev = resend_list(sent, init, now, ack_timeout);
        let r = resend_list(sent, keys, now, ack_timeout);
        assert(!init.contains(last)) by {
            if init.contains(last) {
                let j = choose|j: int| 0 <= j < init.len() && init[j] == last;
                assert(keys[j] == keys[keys.len() - 1]);
            }
        }
        assert forall|i: int| 0 <= i < r.len() implies keys.contains((#[trigger] r[i]).0) by {
            if i < prev.len() {
                let k = prev[i].0;
                let j = choose|j: int| 0 <= j < init.len() && init[j] == k;
                assert(keys[j] == k);
            } else {
                assert(keys[keys.len() - 1] == last);
            }
        }
        assert forall|k: u32|
            keys.contains(k) && sent.contains_key(k) && overdue(sent[k].sent_at, now, ack_timeout)
                implies exists|i: int| 0 <= i < r.len() && (#[trigger] r[i]).0 == k by {
            if k != last {
                let j = choose|j: int| 0 <= j < keys.len() && keys[j] == k;
                assert(init[j] == k);
                assert(init.contains(k));
                let i = choose|i: int| 0 <= i < prev.len() && (#[trigger] prev[i]).0 == k;
                assert(r[i] == prev[i]);
            } else {
                assert(r[r.len() - 1].0 == k);
            }
        }
        assert forall|i: int, j: int| 0 <= i < j < r.len() implies (#[trigger] r[i]).0 != (
        #[trigger] r[j]).0 by {
            if j == prev.len() {
                assert(init.contains(prev[i].0));
            }
        }
    }
}

// ---------------------------------------------------------------------
// Histories of a sender
// ---------------------------------------------------------------------

/// The state of a sender just made.
pub open spec fn fresh_sender() -> SenderView {
    SenderView {
        next: 0,
        sent: Map::<u32, SentView>::empty(),
        ack_timeout: ACK_TIMEOUT_NANOS,
        last_resend_check: 0,
        pending_acks: Seq::<u32>::empty(),
    }
}

/// A call on a sender, with what the clock read and what came back where
/// the call reads the clock or hands something out.
pub enum SenderCall {
    /// `send` (or `send_at`) of `data`, with the clock reading `now`.
    Send { data: Seq<u8>, now: u128 },
    /// `get_resends` (or `get_resends_at`) at `now`, which returned `out`.
    Resends { now: u128, out: Seq<(u32, Seq<u8>)> },
    /// `ack_received` of `seq`.
    Ack { seq: u32 },
    /// `queue_ack` of `seq`.
    QueueAck { seq: u32 },
    /// `get_pending_acks`.
    TakeAcks,
}

/// What the contracts of the sender's methods say `call` does to `o`: the
/// sender after the call may be `n`.
pub open spec fn sender_step(o: SenderView, call: SenderCall, n: SenderView) -> bool {
    match call {
        SenderCall::Send { data, now } => n == after_send(o, data, now),
        SenderCall::Resends { now, out } => resends_ok(o, now, n, out),
        SenderCall::Ack { seq } => n == (SenderView { sent: o.sent.remove(seq), ..o }),
        SenderCall::QueueAck { seq } => n == (SenderView { pending_acks: o.pending_acks.push(seq), ..o }),
        SenderCall::TakeAcks => n == (SenderView { pending_acks: Seq::<u32>::empty(), ..o }),
    }
}

/// `vs` is a run of a fresh sender through `calls`: `vs[i]` is the sender
/// before call `i`, and the last one the sender after them all.
pub open spec fn fresh_sender_run(calls: Seq<SenderCall>, vs: Seq<SenderView>) -> bool {
    &&& vs.len() == calls.len() + 1
    &&& vs[0] == fresh_sender()
    &&& forall|i: int| 0 <= i < calls.len() ==> #[trigger] sender_step(vs[i], calls[i], vs[i + 1])
}

/// How many of `calls` are sends.
pub open spec fn sends_in(calls: Seq<SenderCall>) -> nat
    decreases calls.len(),
{
    if calls.len() == 0 {
        0
    } else if calls.last() is Send {
        sends_in(calls.drop_last()) + 1
    } else {
        sends_in(calls.drop_last())
    }
}

/// The number of the payload sent `k`-th, counting from zero: `k` modulo
/// 2^32.
pub open spec fn send_number(k: nat) -> u32 {
    (k % 4294967296) as u32
}

/// The numbers that `calls` sent and did not acknowledge afterwards.
pub open spec fn unacked_numbers(calls: Seq<SenderCall>) -> Set<u32>
    decreases calls.len(),
{
    if calls.len() == 0 {
        Set::empty()
    } else {
        let prev = unacked_numbers(calls.drop_last());
        match calls.last() {
            SenderCall::Send { .. } => prev.insert(send_number(sends_in(calls.drop_last()))),
            SenderCall::Ack { seq } => prev.remove(seq),
            _ => prev,
        }
    }
}

proof fn lemma_send_number_next(k: nat)
    ensures
        send_number(k + 1) == seq_next(send_number(k)),
{
    let m: int = 4294967296;
    vstd::arithmetic::div_mod::lemma_fundamental_div_mod(k as int, m);
    let q = k as int / m;
    let r = k as int % m;
    assert(0 <= r < m);
    if r == m - 1 {
        vstd::arithmetic::div_mod::lemma_fundamental_div_mod_converse(k as int + 1, m, q + 1, 0);
    } else {
        vstd::arithmetic::div_mod::lemma_fundamental_div_mod_converse(k as int + 1, m, q, r + 1);
    }
}

proof fn lemma_fresh_sender_prefix(calls: Seq<SenderCall>, vs: Seq<SenderView>, i: int)
    requires
        fresh_sender_run(calls, vs),
        0 <= i <= calls.len(),
    ensures
        vs[i].next == send_number(sends_in(calls.take(i))),
        vs[i].sent.dom() == unacked_numbers(calls.take(i)),
    decreases i,
{
    if i == 0 {
        assert(calls.take(0) =~= Seq::<SenderCall>::empty());
        assert(vs[0].sent.dom() =~= Set::<u32>::empty());
    } else {
        lemma_fresh_sender_prefix(calls, vs, i - 1);
        let pre = calls.take(i - 1);
        let t = calls.take(i);
        assert(t.drop_last() =~= pre);
        assert(t.last() == calls[i - 1]);
        let j = i - 1;
        assert(sender_step(vs[j], calls[j], vs[j + 1]));
        assert(j + 1 == i);
        let o = vs[i - 1];
        let n = vs[i];
        match calls[i - 1] {
            SenderCall::Send { data, now } => {
                lemma_send_number_next(sends_in(pre));
                assert(n.sent.dom() =~= o.sent.dom().insert(o.next));
            },
            SenderCall::Resends { now, out } => {
                assert(restamp(o.sent, now, o.ack_timeout).dom() =~= o.sent.dom());
            },
            SenderCall::Ack { seq } => {
                assert(n.sent.dom() =~= o.sent.dom().remove(seq));
            },
            _ => {},
        }
    }
}

/// A fresh sender numbers its payloads 0, 1, 2, ... (modulo 2^32), whatever
/// other calls come between: the `k`-th send returns `k` mod 2^32, for the
/// number `send` returns is the sender's `next`. And a sender awaits the
/// acknowledgement of exactly the numbers it sent and was not told since
/// were acknowledged, so `has_unacked` is true exactly when some such
/// number is left.
pub proof fn law_fresh_sender_numbers_from_zero(calls: Seq<SenderCall>, vs: Seq<SenderView>)
    requires
        fresh_sender_run(calls, vs),
    ensures
        forall|i: int|
            0 <= i <= calls.len() ==> (#[trigger] vs[i]).next == send_number(sends_in(calls.take(i))),
        forall|i: int| 0 <= i <= calls.len() ==> (#[trigger] vs[i]).sent.dom() == unacked_numbers(calls.take(i)),
        !vs.last().sent.is_empty() <==> unacked_numbers(calls) != Set::<u32>::empty(),
{
    assert forall|i: int| 0 <= i <= calls.len() implies (#[trigger] vs[i]).next == send_number(
        sends_in(calls.take(i)),
    ) && vs[i].sent.dom() == unacked_numbers(calls.take(i)) by {
        lemma_fresh_sender_prefix(calls, vs, i);
    }
    lemma_fresh_sender_prefix(calls, vs, calls.len() as int);
    assert(calls.take(calls.len() as int) =~= calls);
}

// ---------------------------------------------------------------------
// Receiver
// ---------------------------------------------------------------------

pub struct ReliableReceiver {
    highest_seq_received: SequenceNumber,
    received_packets: HashMap<u32, Vec<u8>>,
    ordered_buffer: Vec<Vec<u8>>,
    expected_next: SequenceNumber,
}

pub struct ReceiverView {
    /// The newest sequence number seen.
    pub highest: u32,
    /// Payloads that arrived ahead of a gap, by sequence number.
    pub buffered: Map<u32, Seq<u8>>,
    /// Payloads ready to be handed on, in sequence order.
    pub ordered: Seq<Seq<u8>>,
    /// The sequence number of the next payload to hand on.
    pub expected: u32,
}

pub open spec fn payloads_view(v: Seq<Vec<u8>>) -> Seq<Seq<u8>> {
    v.map_values(|b: Vec<u8>| b@)
}

impl View for ReliableReceiver {
    type V = ReceiverView;

    closed spec fn view(&self) -> ReceiverView {
        ReceiverView {
            highest: self.highest_seq_received.0,
            buffered: self.received_packets@.map_values(|b: Vec<u8>| b@),
            ordered: payloads_view(self.ordered_buffer@),
            expected: self.expected_next.0,
        }
    }
}

/// The receiver's invariant: every payload held back is ahead of the next
/// expected one.
pub open spec fn receiver_wf(v: ReceiverView) -> bool {
    &&& v.buffered.dom().finite()
    &&& forall|k: u32| #[trigger] v.buffered.contains_key(k) ==> k > v.expected
}

/// Handing on the held-back payloads that continue the sequence from `e`:
/// what is handed on, the numbers acknowledged, what stays held back, and
/// the next expected number.
pub open spec fn drain(m: Map<u32, Seq<u8>>, e: u32) -> (Seq<Seq<u8>>, Seq<u32>, Map<u32, Seq<u8>>, u32)
    decreases m.dom().len(),
    when m.dom().finite()
{
    if m.contains_key(e) {
        let r = drain(m.remove(e), seq_next(e));
        (seq![m[e]] + r.0, seq![e] + r.1, r.2, r.3)
    } else {
        (Seq::empty(), Seq::empty(), m, e)
    }
}

/// What receiving payload `data` numbered `seq` does: the new state and the
/// numbers to acknowledge, in order.
pub open spec fn receive_spec(v: ReceiverView, seq: u32, data: Seq<u8>) -> (ReceiverView, Seq<u32>) {
    let highest = if seq_newer(seq, v.highest) || v.highest == 0 {
        seq
    } else {
        v.highest
    };
    if seq == v.expected {
        let d = drain(v.buffered, seq_next(seq));
        (
            ReceiverView {
                highest,
                buffered: d.2,
                ordered: v.ordered.push(data) + d.0,
                expected: d.3,
            },
            seq![seq] + d.1,
        )
    } else if seq > v.expected {
        (ReceiverView { highest, buffered: v.buffered.insert(seq, data), ..v }, seq![seq])
    } else {
        (ReceiverView { highest, ..v }, seq![seq])
    }
}

proof fn lemma_drain_keeps_order(m: Map<u32, Seq<u8>>, e: u32)
    requires
        m.dom().finite(),
        forall|k: u32| #[trigger] m.contains_key(k) ==> k >= e,
    ensures
        drain(m, e).2.dom().finite(),
        forall|k: u32| #[trigger] drain(m, e).2.contains_key(k) ==> k > drain(m, e).3,
    decreases m.dom().len(),
{
    if m.contains_key(e) {
        let m2 = m.remove(e);
        assert(m2.dom().len() < m.dom().len());
        if e == u32::MAX {
            assert(m2.dom() =~= Set::<u32>::empty()) by {
                assert forall|k: u32| !m2.dom().contains(k) by {
                    if m2.contains_key(k) {
                        assert(m.contains_key(k));
                    }
                }
            }
        }
        lemma_drain_keeps_order(m2, seq_next(e));
    }
}

impl ReliableReceiver {
    pub open spec fn wf(&self) -> bool {
        receiver_wf(self@)
    }

    pub fn new() -> (r: Self)
        ensures
            r.wf(),
            r@.highest == 0,
            r@.buffered == Map::<u32, Seq<u8>>::empty(),
            r@.ordered == Seq::<Seq<u8>>::empty(),
            r@.expected == 0,
            r@ == fresh_receiver(),
    {
        let r = Self {
            highest_seq_received: SequenceNumber::new(0),
            received_packets: HashMap::new(),
            ordered_buffer: Vec::new(),
            expected_next: SequenceNumber::new(0),
        };
        proof {
            assert(r@.buffered =~= Map::<u32, Seq<u8>>::empty());
            assert(r@.ordered =~= Seq::<Seq<u8>>::empty());
        }
        r
    }

    /// Takes in payload `data` numbered `seq` and returns the numbers to
    /// acknowledge: the expected payload is handed on together with the
    /// held-back payloads that continue it; one ahead of a gap is held back;
    /// one already handed on is dropped. Every payload is acknowledged.
    pub fn receive(&mut self, seq: SequenceNumber, data: Vec<u8>) -> (acks: Vec<SequenceNumber>)
        requires
            old(self).wf(),
        ensures
            final(self).wf(),
            (final(self)@, acks_view(acks@)) == receive_spec(old(self)@, seq.0, data@),
    {
        let mut acks: Vec<SequenceNumber> = Vec::new();
        if seq.is_newer_than(self.highest_seq_received) || self.highest_seq_received.0 == 0 {
            self.highest_seq_received = seq;
        }
        let ghost v0 = old(self)@;
        if seq.0 == self.expected_next.0 {
            self.ordered_buffer.push(data);
            self.expected_next = seq.next();
            acks.push(seq);
            let ghost m0 = self@.buffered;
            let ghost e1 = seq_next(seq.0);
            let ghost n0 = self@.ordered.len();
            proof {
                assert(self@.ordered =~= v0.ordered.push(data@));
                assert(acks_view(acks@) =~= seq![seq.0]);
                assert(m0 == v0.buffered);
                lemma_drain_keeps_order(m0, e1);
            }
            loop
                invariant_except_break
                    m0 == v0.buffered,
                    m0.dom().finite(),
                    e1 == seq_next(seq.0),
                    seq.0 == v0.expected,
                    self@.buffered.dom().finite(),
                    self@.highest == receive_spec(v0, seq.0, data@).0.highest,
                    self@.ordered.len() >= n0,
                    self@.ordered.take(n0 as int) == v0.ordered.push(data@),
                    acks_view(acks@).len() >= 1,
                    acks_view(acks@)[0] == seq.0,
                    drain(m0, e1).0 == self@.ordered.skip(n0 as int) + drain(self@.buffered, self@.expected).0,
                    drain(m0, e1).1 == acks_view(acks@).skip(1) + drain(self@.buffered, self@.expected).1,
                    drain(m0, e1).2 == drain(self@.buffered, self@.expected).2,
                    drain(m0, e1).3 == drain(self@.buffered, self@.expected).3,
                ensures
                    (self@, acks_view(acks@)) == receive_spec(v0, seq.0, data@),
                decreases self@.buffered.dom().len(),
            {
                let ghost before = self@;
                let ghost acks_before = acks_view(acks@);
                match self.received_packets.remove(&self.expected_next.0) {
                    Some(buffered) => {
                        self.ordered_buffer.push(buffered);
                        acks.push(self.expected_next);
                        self.expected_next = self.expected_next.next();
                        proof {
                            assert(self@.buffered =~= before.buffered.remove(before.expected));
                            assert(self@.ordered =~= before.ordered.push(before.buffered[before.expected]));
                            assert(acks_view(acks@) =~= acks_before.push(before.expected));
                            assert(self@.ordered.take(n0 as int) =~= before.ordered.take(n0 as int));
                            assert(self@.ordered.skip(n0 as int) =~= before.ordered.skip(n0 as int).push(
                                before.buffered[before.expected],
                            ));
                            assert(acks_view(acks@).skip(1) =~= acks_before.skip(1).push(before.expected));
                            let c = drain(self@.buffered, self@.expected);
                            assert(drain(before.buffered, before.expected).0 =~= seq![
                                before.buffered[before.expected],
                            ] + c.0);
                            assert(self@.ordered.skip(n0 as int) + c.0 =~= before.ordered.skip(n0 as int)
                                + (seq![before.buffered[before.expected]] + c.0));
                            assert(acks_view(acks@).skip(1) + c.1 =~= acks_before.skip(1) + (seq![
                                before.expected,
                            ] + c.1));
                            assert(self@.buffered.dom().len() < before.buffered.dom().len());
                        }
                    },
                    None => {
                        proof {
                            assert(self@.buffered =~= before.buffered);
                            assert(!self@.buffered.contains_key(self@.expected));
                            let c = drain(self@.buffered, self@.expected);
                            assert(c.0 =~= Seq::<Seq<u8>>::empty());
                            assert(c.1 =~= Seq::<u32>::empty());
                            let d = drain(m0, e1);
                            assert(d.0 =~= self@.ordered.skip(n0 as int));
                            assert(d.1 =~= acks_view(acks@).skip(1));
                            assert(self@.ordered =~= self@.ordered.take(n0 as int) + self@.ordered.skip(
                                n0 as int,
                            ));
                            assert(self@.ordered =~= v0.ordered.push(data@) + d.0);
                            assert(acks_view(acks@) =~= seq![seq.0] + acks_view(acks@).skip(1));
                        }
                        break;
                    },
                }
            }
            proof {
                let d = drain(m0, e1);
                assert forall|k: u32| #[trigger] self@.buffered.contains_key(k) implies k > self@.expected by {
                    assert(d.2.contains_key(k));
                }
            }
        } else if seq.0 > self.expected_next.0 {
            self.received_packets.insert(seq.0, data);
            acks.push(seq);
            proof {
                assert(self@.buffered =~= v0.buffered.insert(seq.0, data@));
                assert(acks_view(acks@) =~= seq![seq.0]);
            }
        } else {
            acks.push(seq);
            proof {
                assert(acks_view(acks@) =~= seq![seq.0]);
            }
        }
        acks
    }

    /// Hands on the oldest payload ready, if any.
    pub fn pop_packet(&mut self) -> (r: Option<Vec<u8>>)
        ensures
            match r {
                Some(p) => old(self)@.ordered.len() > 0 && p@ == old(self)@.ordered[0]
                    && final(self)@ == (ReceiverView {
                    ordered: old(self)@.ordered.drop_first(),
                    ..old(self)@
                }),
                None => old(self)@.ordered.len() == 0 && final(self)@ == old(self)@,
            },
    {
        if self.ordered_buffer.is_empty() {
            None
        } else {
            let p = self.ordered_buffer.remove(0);
            proof {
                assert(self@.ordered =~= old(self)@.ordered.drop_first());
            }
            Some(p)
        }
    }

    /// Hands on every payload ready, oldest first.
    pub fn take_all_packets(&mut self) -> (r: Vec<Vec<u8>>)
        ensures
            payloads_view(r@) == old(self)@.ordered,
            final(self)@ == (ReceiverView { ordered: Seq::<Seq<u8>>::empty(), ..old(self)@ }),
    {
        let mut taken: Vec<Vec<u8>> = Vec::new();
        std::mem::swap(&mut taken, &mut self.ordered_buffer);
        proof {
            assert(self@.ordered =~= Seq::<Seq<u8>>::empty());
        }
        taken
    }
}

/// Every payload received is acknowledged, first among the numbers a
/// receive returns.
pub proof fn law_every_payload_is_acknowledged(v: ReceiverView, seq: u32, data: Seq<u8>)
    ensures
        receive_spec(v, seq, data).1.len() >= 1,
        receive_spec(v, seq, data).1[0] == seq,
{
}

/// A payload already handed on is dropped: receiving it again changes
/// nothing but the newest number seen.
pub proof fn law_duplicate_payload_is_dropped(v: ReceiverView, seq: u32, data: Seq<u8>)
    requires
        seq < v.expected,
    ensures
        receive_spec(v, seq, data).0.ordered == v.ordered,
        receive_spec(v, seq, data).0.buffered == v.buffered,
        receive_spec(v, seq, data).0.expected == v.expected,
{
}

/// Payloads are handed on in sequence order whatever order they arrive in:
/// with nothing held back, receiving numbers `e + 1` and then `e` hands on
/// the payload of `e` and then that of `e + 1`.
pub proof fn law_swapped_payloads_are_delivered_in_order(
    v: ReceiverView,
    d1: Seq<u8>,
    d2: Seq<u8>,
)
    requires
        receiver_wf(v),
        v.buffered == Map::<u32, Seq<u8>>::empty(),
        v.expected < u32::MAX - 1,
    ensures
        ({
            let e = v.expected;
            let after_first = receive_spec(v, (e + 1) as u32, d2).0;
            let (after_second, acks) = receive_spec(after_first, e, d1);
            &&& after_first.ordered == v.ordered
            &&& after_second.ordered == v.ordered.push(d1).push(d2)
            &&& after_second.expected == e + 2
            &&& after_second.buffered.dom().len() == 0
            &&& acks == seq![e, (e + 1) as u32]
        }),
{
    let e = v.expected;
    let (v1, a1) = receive_spec(v, (e + 1) as u32, d2);
    assert(v1.buffered == Map::<u32, Seq<u8>>::empty().insert((e + 1) as u32, d2));
    let (v2, a2) = receive_spec(v1, e, d1);
    let m = v1.buffered;
    assert(m.dom() =~= set![(e + 1) as u32]);
    assert(m.dom().finite());
    let m2 = m.remove((e + 1) as u32);
    assert(m2.dom() =~= Set::<u32>::empty());
    assert(m2.dom().finite());
    assert(m2.dom().len() == 0);
    assert(!m2.contains_key((e + 2) as u32));
    assert(drain(m2, (e + 2) as u32) == (Seq::<Seq<u8>>::empty(), Seq::<u32>::empty(), m2, (e + 2) as u32));
    assert(m.dom().len() == 1);
    let d = drain(m, (e + 1) as u32);
    assert(d.0 =~= seq![d2]);
    assert(d.1 =~= seq![(e + 1) as u32]);
    assert(v2.ordered =~= v.ordered.push(d1).push(d2));
    assert(a2 =~= seq![e, (e + 1) as u32]);
}

/// The state of a receiver just made.
pub open spec fn fresh_receiver() -> ReceiverView {
    ReceiverView {
        highest: 0,
        buffered: Map::<u32, Seq<u8>>::empty(),
        ordered: Seq::<Seq<u8>>::empty(),
        expected: 0,
    }
}

/// The receiver `v` after receiving, in turn, the payloads numbered `seqs`,
/// the payload numbered `k` being `ds[k]`.
pub open spec fn receive_each(v: ReceiverView, seqs: Seq<u32>, ds: Seq<Seq<u8>>) -> ReceiverView
    decreases seqs.len(),
{
    if seqs.len() == 0 {
        v
    } else {
        receive_spec(receive_each(v, seqs.drop_last(), ds), seqs.last(), ds[seqs.last() as int]).0
    }
}

/// What holds of a fresh receiver after receiving `seqs` (payloads `ds`):
/// everything below the expected number arrived and was handed on in
/// order, the expected number has not arrived, and exactly the payloads
/// that arrived beyond it are held back.
spec fn delivery_inv(v: ReceiverView, seqs: Seq<u32>, ds: Seq<Seq<u8>>) -> bool {
    &&& v.expected <= ds.len()
    &&& forall|i: u32| i < v.expected ==> #[trigger] seqs.contains(i)
    &&& !seqs.contains(v.expected)
    &&& v.ordered == ds.take(v.expected as int)
    &&& v.buffered.dom().finite()
    &&& forall|k: u32| #[trigger] v.buffered.contains_key(k) <==> (seqs.contains(k) && k > v.expected)
    &&& forall|k: u32| #[trigger] v.buffered.contains_key(k) ==> v.buffered[k] == ds[k as int]
}

proof fn lemma_drain_run(m: Map<u32, Seq<u8>>, f: u32, r: Seq<u32>, ds: Seq<Seq<u8>>)
    requires
        m.dom().finite(),
        f <= ds.len(),
        ds.len() < 2147483648,
        forall|j: int| 0 <= j < r.len() ==> r[j] < ds.len(),
        forall|k: u32| #[trigger] m.contains_key(k) <==> (r.contains(k) && k >= f),
        forall|k: u32| #[trigger] m.contains_key(k) ==> m[k] == ds[k as int],
    ensures
        ({
            let d = drain(m, f);
            &&& f <= d.3 <= ds.len()
            &&& !r.contains(d.3)
            &&& forall|i: u32| f <= i < d.3 ==> #[trigger] r.contains(i)
            &&& d.0 == ds.subrange(f as int, d.3 as int)
            &&& d.2.dom().finite()
            &&& forall|k: u32| #[trigger] d.2.contains_key(k) <==> (r.contains(k) && k > d.3)
            &&& forall|k: u32| #[trigger] d.2.contains_key(k) ==> d.2[k] == ds[k as int]
        }),
    decreases m.dom().len(),
{
    if m.contains_key(f) {
        assert(r.contains(f));
        let j = choose|j: int| 0 <= j < r.len() && r[j] == f;
        assert(f < ds.len());
        let m2 = m.remove(f);
        assert(m2.dom().len() < m.dom().len());
        assert(seq_next(f) == f + 1);
        lemma_drain_run(m2, (f + 1) as u32, r, ds);
        let d2 = drain(m2, (f + 1) as u32);
        let d = drain(m, f);
        assert(d.0 == seq![m[f]] + d2.0);
        assert(d.0 =~= ds.subrange(f as int, d.3 as int));
        assert forall|i: u32| f <= i < d.3 implies #[trigger] r.contains(i) by {
            if i != f {
                assert(f + 1 <= i);
            }
        }
    } else {
        assert(!r.contains(f));
        let d = drain(m, f);
        assert(d.0 =~= ds.subrange(f as int, f as int));
        assert forall|k: u32| #[trigger] d.2.contains_key(k) <==> (r.contains(k) && k > d.3) by {
            if r.contains(k) && k == f {
            }
        }
    }
}

proof fn lemma_delivery_inv(seqs: Seq<u32>, ds: Seq<Seq<u8>>)
    requires
        ds.len() < 2147483648,
        forall|j: int| 0 <= j < seqs.len() ==> seqs[j] < ds.len(),
    ensures
        delivery_inv(receive_each(fresh_receiver(), seqs, ds), seqs, ds),
    decreases seqs.len(),
{
    let v = receive_each(fresh_receiver(), seqs, ds);
    if seqs.len() == 0 {
        assert(v.ordered =~= ds.take(0));
        assert(v.buffered.dom() =~= Set::<u32>::empty());
    } else {
        let pre = seqs.drop_last();
        let s = seqs.last();
        assert(s == seqs[seqs.len() - 1]);
        assert forall|j: int| 0 <= j < pre.len() implies pre[j] < ds.len() by {
            assert(pre[j] == seqs[j]);
        }
        lemma_delivery_inv(pre, ds);
        let o = receive_each(fresh_receiver(), pre, ds);
        let data = ds[s as int];
        assert(v == receive_spec(o, s, data).0);
        assert forall|k: u32| #[trigger] seqs.contains(k) <==> (pre.contains(k) || k == s) by {
            if seqs.contains(k) {
                let j = choose|j: int| 0 <= j < seqs.len() && seqs[j] == k;
                if j < pre.len() {
                    assert(pre[j] == k);
                }
            }
            if pre.contains(k) {
                let j = choose|j: int| 0 <= j < pre.len() && pre[j] == k;
                assert(seqs[j] == k);
            }
        }
        if s == o.expected {
            let m = o.buffered;
            let e1 = seq_next(s);
            assert(s < ds.len());
            assert(e1 == s + 1);
            assert forall|k: u32| #[trigger] m.contains_key(k) <==> (seqs.contains(k) && k >= e1) by {
                if seqs.contains(k) && k >= e1 {
                    assert(pre.contains(k));
                }
            }
            lemma_drain_run(m, e1, seqs, ds);
            let d = drain(m, e1);
            assert(v.ordered == o.ordered.push(data) + d.0);
            assert(v.ordered =~= ds.take(d.3 as int));
            assert(v.expected == d.3);
            assert forall|i: u32| i < v.expected implies #[trigger] seqs.contains(i) by {
                if i < s {
                    assert(pre.contains(i));
                } else if i == s {
                } else {
                    assert(e1 <= i < d.3);
                }
            }
        } else if s > o.expected {
            assert(v.buffered == o.buffered.insert(s, data));
            assert forall|i: u32| i < v.expected implies #[trigger] seqs.contains(i) by {
                assert(pre.contains(i));
            }
            assert forall|k: u32| #[trigger] v.buffered.contains_key(k) <==> (seqs.contains(k) && k > v.expected) by {
                if k != s && v.buffered.contains_key(k) {
                    assert(o.buffered.contains_key(k));
                }
            }
        } else {
            assert(s < o.expected);
            assert(pre.contains(s));
            assert forall|i: u32| i < v.expected implies #[trigger] seqs.contains(i) by {
                assert(pre.contains(i));
            }
            assert forall|k: u32| #[trigger] v.buffered.contains_key(k) <==> (seqs.contains(k) && k > v.expected) by {
                if seqs.contains(k) && k > v.expected {
                    assert(pre.contains(k));
                }
            }
        }
    }
}

/// Payloads are handed on in sequence order whatever order they arrive in:
/// a fresh receiver that receives payloads numbered `0..n` (`n` below
/// 2^31), in any order and some more than once, ends holding for delivery
/// exactly `ds[0], ..., ds[n - 1]`, each once and in order, with nothing
/// held back. (Each receive acknowledges its own number, by
/// [`law_every_payload_is_acknowledged`].)
pub proof fn law_payloads_are_delivered_in_order(seqs: Seq<u32>, ds: Seq<Seq<u8>>)
    requires
        ds.len() < 2147483648,
        forall|j: int| 0 <= j < seqs.len() ==> seqs[j] < ds.len(),
        forall|i: u32| i < ds.len() ==> #[trigger] seqs.contains(i),
    ensures
        receive_each(fresh_receiver(), seqs, ds).ordered == ds,
        receive_each(fresh_receiver(), seqs, ds).buffered.dom() == Set::<u32>::empty(),
        receive_each(fresh_receiver(), seqs, ds).expected == ds.len(),
{
    lemma_delivery_inv(seqs, ds);
    let v = receive_each(fresh_receiver(), seqs, ds);
    if v.expected < ds.len() {
        assert(seqs.contains(v.expected));
    }
    assert(v.ordered =~= ds);
    assert forall|k: u32| !v.buffered.dom().contains(k) by {
        if v.buffered.contains_key(k) {
            let j = choose|j: int| 0 <= j < seqs.len() && seqs[j] == k;
        }
    }
    assert(v.buffered.dom() =~= Set::<u32>::empty());
}

} // verus!
