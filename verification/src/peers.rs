//! The table of peers in a room: each connected client gets a small game
//! peer identifier, handed out in increasing order from 1 and never reused.
use vstd::prelude::*;
use std::collections::HashMap;
use vstd::std_specs::iter::IteratorSpec;

verus! {

broadcast use vstd::std_specs::hash::group_hash_axioms;

/// The transport's identifier of a connected client.
pub type ClientId = u64;

/// Two-way association between clients and game peer identifiers.
#[derive(Debug)]
pub struct PeerTable {
    godot_to_client: HashMap<i32, ClientId>,
    client_to_godot: HashMap<ClientId, i32>,
    next_godot_id: i32,
}

/// The content of a [`PeerTable`].
pub struct PeerTableView {
    /// Each member client's peer identifier.
    pub clients: Map<ClientId, i32>,
    /// The client behind each peer identifier still on record.
    pub godots: Map<i32, ClientId>,
    /// The identifier the next peer will get.
    pub next: i32,
}

/// The table's invariant: both maps are finite, identifiers already handed
/// out lie in `1..next`, and a member's identifier leads back to that
/// member.
pub open spec fn peer_table_wf(v: PeerTableView) -> bool {
    &&& v.clients.dom().finite()
    &&& v.godots.dom().finite()
    &&& 1 <= v.next
    &&& forall|g: i32| #[trigger] v.godots.contains_key(g) ==> 1 <= g < v.next
    &&& forall|c: ClientId| #[trigger] v.clients.contains_key(c) ==> {
        &&& v.godots.contains_key(v.clients[c])
        &&& v.godots[v.clients[c]] == c
    }
}

/// The two maps are each other's inverse in the other direction too: each
/// identifier on record belongs to a member that holds it. A table keeps
/// this while only clients that are not members are added.
pub open spec fn peers_paired(v: PeerTableView) -> bool {
    forall|g: i32| #[trigger] v.godots.contains_key(g) ==> {
        &&& v.clients.contains_key(v.godots[g])
        &&& v.clients[v.godots[g]] == g
    }
}

impl View for PeerTable {
    type V = PeerTableView;

    closed spec fn view(&self) -> PeerTableView {
        PeerTableView {
            clients: self.client_to_godot@,
            godots: self.godot_to_client@,
            next: self.next_godot_id,
        }
    }
}

impl PeerTable {
    pub open spec fn wf(&self) -> bool {
        peer_table_wf(self@)
    }

    /// A table with no peers, whose first identifier will be 1.
    pub fn new() -> (t: Self)
        ensures
            t.wf(),
            t@.clients == Map::<ClientId, i32>::empty(),
            t@.godots == Map::<i32, ClientId>::empty(),
            t@.next == 1,
            peers_paired(t@),
    {
        PeerTable { godot_to_client: HashMap::new(), client_to_godot: HashMap::new(), next_godot_id: 1 }
    }

    /// Gives `client_id` the next peer identifier and returns it.
    pub fn add_peer(&mut self, client_id: ClientId) -> (godot_pid: i32)
        requires
            old(self).wf(),
            old(self)@.next < i32::MAX,
        ensures
            final(self).wf(),
            godot_pid == old(self)@.next,
            final(self)@.clients == old(self)@.clients.insert(client_id, godot_pid),
            final(self)@.godots == old(self)@.godots.insert(godot_pid, client_id),
            final(self)@.next == godot_pid + 1,
            peers_paired(old(self)@) && !old(self)@.clients.contains_key(client_id) ==> peers_paired(
                final(self)@,
            ),
    {
        let godot_pid = self.next_godot_id;
        self.client_to_godot.insert(client_id, godot_pid);
        self.godot_to_client.insert(godot_pid, client_id);
        self.next_godot_id = godot_pid + 1;
        proof {
            assert(self@.clients == old(self)@.clients.insert(client_id, godot_pid));
            assert(self@.godots == old(self)@.godots.insert(godot_pid, client_id));
            assert forall|g: i32| #[trigger] self@.godots.contains_key(g) implies 1 <= g < self@.next by {
                if g != godot_pid {
                    assert(old(self)@.godots.contains_key(g));
                }
            }
            assert forall|c: ClientId| #[trigger] self@.clients.contains_key(c) implies {
                &&& self@.godots.contains_key(self@.clients[c])
                &&& self@.godots[self@.clients[c]] == c
            } by {
                if c != client_id {
                    assert(old(self)@.clients.contains_key(c));
                    assert(old(self)@.godots.contains_key(old(self)@.clients[c]));
                }
            }
            if peers_paired(old(self)@) && !old(self)@.clients.contains_key(client_id) {
                lemma_add_keeps_paired(old(self)@, client_id, self@);
            }
        }
        godot_pid
    }

    /// The peer identifier of `client_id`, if it is a member.
    pub fn godot_id(&self, client_id: ClientId) -> (r: Option<i32>)
        ensures
            r == (if self@.clients.contains_key(client_id) {
                Some(self@.clients[client_id])
            } else {
                None::<i32>
            }),
    {
        match self.client_to_godot.get(&client_id) {
            Some(g) => Some(*g),
            None => None,
        }
    }

    /// The client behind peer identifier `godot_id`, if it is on record.
    pub fn client_id(&self, godot_id: i32) -> (r: Option<ClientId>)
        ensures
            r == (if self@.godots.contains_key(godot_id) {
                Some(self@.godots[godot_id])
            } else {
                None::<ClientId>
            }),
    {
        match self.godot_to_client.get(&godot_id) {
            Some(c) => Some(*c),
            None => None,
        }
    }

    /// Whether `client_id` is a member.
    pub fn contains_client(&self, client_id: ClientId) -> (r: bool)
        ensures
            r == self@.clients.contains_key(client_id),
    {
        self.client_to_godot.contains_key(&client_id)
    }

    /// The members and their peer identifiers.
    pub fn clients_map(&self) -> (r: &HashMap<ClientId, i32>)
        ensures
            r@ == self@.clients,
    {
        &self.client_to_godot
    }

    /// The member clients, each once, in no particular order.
    pub fn client_ids(&self) -> (out: Vec<ClientId>)
        ensures
            out@.to_set() == self@.clients.dom(),
            out@.no_duplicates(),
            out@.len() == self@.clients.dom().len(),
    {
        let mut out: Vec<ClientId> = Vec::new();
        let ghost ks = vstd::std_specs::hash::spec_keys_iter(&self.client_to_godot).remaining();
        for k in iter: self.client_to_godot.keys()
            invariant
                iter.seq() == ks,
                out@.len() == iter.index(),
                forall|i: int| 0 <= i < out@.len() ==> out@[i] == *iter.seq()[i],
        {
            out.push(*k);
        }
        proof {
            assert(out@ =~= ks.unref());
        }
        out
    }

    /// The peer identifiers on record, each once, in no particular order.
    pub fn godot_ids(&self) -> (out: Vec<i32>)
        ensures
            out@.to_set() == self@.godots.dom(),
            out@.no_duplicates(),
            out@.len() == self@.godots.dom().len(),
    {
        let mut out: Vec<i32> = Vec::new();
        let ghost ks = vstd::std_specs::hash::spec_keys_iter(&self.godot_to_client).remaining();
        for k in iter: self.godot_to_client.keys()
            invariant
                iter.seq() == ks,
                out@.len() == iter.index(),
                forall|i: int| 0 <= i < out@.len() ==> out@[i] == *iter.seq()[i],
        {
            out.push(*k);
        }
        proof {
            assert(out@ =~= ks.unref());
        }
        out
    }

    /// Removes `client_id` and its peer identifier, returning the identifier
    /// if it was a member.
    pub fn remove_peer(&mut self, client_id: ClientId) -> (r: Option<i32>)
        requires
            old(self).wf(),
        ensures
            final(self).wf(),
            final(self)@.next == old(self)@.next,
            r == (if old(self)@.clients.contains_key(client_id) {
                Some(old(self)@.clients[client_id])
            } else {
                None::<i32>
            }),
            match r {
                Some(g) => final(self)@.clients == old(self)@.clients.remove(client_id)
                    && final(self)@.godots == old(self)@.godots.remove(g),
                None => final(self)@ == old(self)@,
            },
            peers_paired(old(self)@) ==> peers_paired(final(self)@),
    {
        match self.client_to_godot.remove(&client_id) {
            Some(godot_id) => {
                self.godot_to_client.remove(&godot_id);
                proof {
                    assert(old(self)@.clients.contains_key(client_id));
                    assert(godot_id == old(self)@.clients[client_id]);
                    assert(self@.clients == old(self)@.clients.remove(client_id));
                    assert(self@.godots == old(self)@.godots.remove(godot_id));
                    assert forall|g: i32| #[trigger] self@.godots.contains_key(g) implies 1 <= g < self@.next by {
                        assert(old(self)@.godots.contains_key(g));
                    }
                    assert forall|c: ClientId| #[trigger] self@.clients.contains_key(c) implies {
                        &&& self@.godots.contains_key(self@.clients[c])
                        &&& self@.godots[self@.clients[c]] == c
                    } by {
                        assert(old(self)@.clients.contains_key(c));
                    }
                    if peers_paired(old(self)@) {
                        assert forall|g: i32| #[trigger] self@.godots.contains_key(g) implies {
                            &&& self@.clients.contains_key(self@.godots[g])
                            &&& self@.clients[self@.godots[g]] == g
                        } by {
                            assert(old(self)@.godots.contains_key(g));
                            assert(old(self)@.godots[g] != client_id);
                        }
                    }
                }
                Some(godot_id)
            },
            None => {
                assert(self@.clients =~= old(self)@.clients);
                None
            },
        }
    }

    /// The identifier the next peer will get.
    pub fn next_id(&self) -> (r: i32)
        ensures
            r == self@.next,
    {
        self.next_godot_id
    }

    /// Whether the table has no member.
    pub fn has_no_clients(&self) -> (r: bool)
        ensures
            r == self@.clients.is_empty(),
    {
        self.client_to_godot.is_empty()
    }

    /// Whether no peer identifier is on record.
    pub fn has_no_godots(&self) -> (r: bool)
        ensures
            r == self@.godots.is_empty(),
    {
        self.godot_to_client.is_empty()
    }

    /// How many peer identifiers are on record.
    pub fn godot_count(&self) -> (r: usize)
        ensures
            r == self@.godots.dom().len(),
    {
        self.godot_to_client.len()
    }

    /// There are fewer identifiers on record than have been handed out.
    pub proof fn lemma_godot_count_bound(&self)
        requires
            self.wf(),
        ensures
            self@.godots.dom().len() <= self@.next - 1,
    {
        let range = Set::<i32>::range(1, self@.next);
        vstd::set_lib::range_set_properties::<i32>(1, self@.next);
        assert(self@.godots.dom().subset_of(range));
        vstd::set_lib::lemma_len_subset(self@.godots.dom(), range);
    }

    /// Members are no more than the identifiers on record, and so fewer
    /// than the identifiers handed out.
    pub proof fn lemma_client_count_bound(&self)
        requires
            self.wf(),
        ensures
            self@.clients.dom().len() <= self@.godots.dom().len(),
            self@.clients.dom().len() <= self@.next - 1,
    {
        let v = self@;
        let f = |c: ClientId| v.clients[c];
        let dom = v.clients.dom();
        let img = dom.map(f);
        assert(vstd::relations::injective_on(f, dom)) by {
            assert forall|a: ClientId, b: ClientId|
                dom.contains(a) && dom.contains(b) && #[trigger] f(a) == #[trigger] f(b) implies a == b by {
                assert(v.godots[v.clients[a]] == a);
                assert(v.godots[v.clients[b]] == b);
            }
        }
        vstd::set_lib::lemma_map_size(dom, img, f);
        assert(img.subset_of(v.godots.dom())) by {
            assert forall|g: i32| img.contains(g) implies v.godots.dom().contains(g) by {
                let c = choose|c: ClientId| dom.contains(c) && f(c) == g;
                assert(v.clients.contains_key(c));
            }
        }
        vstd::set_lib::lemma_len_subset(img, v.godots.dom());
        self.lemma_godot_count_bound();
    }
}

/// The elements of the first `k + 1` items are those of the first `k` and
/// the next one.
pub proof fn lemma_take_one_more(s: Seq<ClientId>, k: int)
    requires
        0 <= k < s.len(),
    ensures
        s.take(k + 1).to_set() == s.take(k).to_set().insert(s[k]),
{
    let t0 = s.take(k);
    let t1 = s.take(k + 1);
    assert forall|y: ClientId| t1.to_set().contains(y) <==> t0.to_set().insert(s[k]).contains(y) by {
        if t1.to_set().contains(y) {
            let w = choose|w: int| 0 <= w < t1.len() && t1[w] == y;
            if w < k {
                assert(t0[w] == y);
                assert(t0.to_set().contains(y));
            }
        }
        if t0.to_set().insert(s[k]).contains(y) {
            if y == s[k] {
                assert(t1[k] == y);
            } else {
                let w = choose|w: int| 0 <= w < t0.len() && t0[w] == y;
                assert(t1[w] == y);
            }
        }
    }
    assert(t1.to_set() =~= t0.to_set().insert(s[k]));
}

/// Going one member further in a list without repeats: the members seen,
/// but `except`, stay without repeats.
pub proof fn lemma_members_step(members: Seq<ClientId>, k: int, except: ClientId, ts: Seq<ClientId>)
    requires
        0 <= k < members.len(),
        members.no_duplicates(),
        ts.no_duplicates(),
        ts.to_set() == members.take(k).to_set().remove(except),
    ensures
        members[k] != except ==> ts.push(members[k]).no_duplicates() && ts.push(members[k]).to_set()
            == members.take(k + 1).to_set().remove(except),
        members[k] == except ==> ts.to_set() == members.take(k + 1).to_set().remove(except),
{
    let x = members[k];
    let t0 = members.take(k);
    let t1 = members.take(k + 1);
    assert(t1 =~= t0.push(x));
    assert(!t0.contains(x)) by {
        if t0.contains(x) {
            let y = choose|y: int| 0 <= y < t0.len() && t0[y] == x;
            assert(members[y] == members[k]);
        }
    }
    if x != except {
        assert(!ts.contains(x)) by {
            if ts.contains(x) {
                assert(ts.to_set().contains(x));
            }
        }
        let nts = ts.push(x);
        assert forall|a: int, b: int| 0 <= a < nts.len() && 0 <= b < nts.len() && a != b implies nts[a]
            != nts[b] by {
            if a < ts.len() && b < ts.len() {
                assert(nts[a] == ts[a]);
                assert(nts[b] == ts[b]);
            } else if a < ts.len() {
                assert(ts.contains(nts[a]));
            } else if b < ts.len() {
                assert(ts.contains(nts[b]));
            }
        }
        assert forall|y: ClientId| nts.to_set().contains(y) <==> t1.to_set().remove(except).contains(y) by {
            if nts.to_set().contains(y) {
                let z = choose|z: int| 0 <= z < nts.len() && nts[z] == y;
                if z < ts.len() {
                    assert(ts[z] == y);
                    assert(ts.to_set().contains(y));
                    let w = choose|w: int| 0 <= w < t0.len() && t0[w] == y;
                    assert(t1[w] == y);
                } else {
                    assert(t1[k] == y);
                }
            }
            if t1.to_set().remove(except).contains(y) {
                let w = choose|w: int| 0 <= w < t1.len() && t1[w] == y;
                if w < k {
                    assert(t0[w] == y);
                    assert(t0.to_set().contains(y));
                    assert(ts.to_set().contains(y));
                    let z = choose|z: int| 0 <= z < ts.len() && ts[z] == y;
                    assert(nts[z] == y);
                } else {
                    assert(nts[ts.len() as int] == y);
                }
            }
        }
        assert(nts.to_set() =~= t1.to_set().remove(except));
    } else {
        assert forall|y: ClientId| ts.to_set().contains(y) <==> t1.to_set().remove(except).contains(y) by {
            if ts.to_set().contains(y) {
                let w = choose|w: int| 0 <= w < t0.len() && t0[w] == y;
                assert(t1[w] == y);
            }
            if t1.to_set().remove(except).contains(y) {
                let w = choose|w: int| 0 <= w < t1.len() && t1[w] == y;
                assert(t0[w] == y);
                assert(t0.to_set().contains(y));
            }
        }
        assert(ts.to_set() =~= t1.to_set().remove(except));
    }
}

/// The identifier a table hands out next is held by no one: identifiers
/// are never handed out twice, even after their holder left.
pub proof fn law_next_peer_id_is_unused(v: PeerTableView)
    requires
        peer_table_wf(v),
    ensures
        !v.godots.contains_key(v.next),
        forall|c: ClientId| #[trigger] v.clients.contains_key(c) ==> v.clients[c] != v.next,
{
    assert forall|c: ClientId| #[trigger] v.clients.contains_key(c) implies v.clients[c] != v.next by {
        assert(v.godots.contains_key(v.clients[c]));
    }
}

proof fn lemma_add_keeps_paired(o: PeerTableView, c: ClientId, n: PeerTableView)
    requires
        peer_table_wf(o),
        peers_paired(o),
        !o.clients.contains_key(c),
        n.clients == o.clients.insert(c, o.next),
        n.godots == o.godots.insert(o.next, c),
    ensures
        peers_paired(n),
{
    assert forall|g: i32| #[trigger] n.godots.contains_key(g) implies {
        &&& n.clients.contains_key(n.godots[g])
        &&& n.clients[n.godots[g]] == g
    } by {
        if g != o.next {
            assert(o.godots.contains_key(g));
            assert(o.clients.contains_key(o.godots[g]));
            assert(o.godots[g] != c);
        }
    }
}

/// The size of a finite set that a function maps injectively into another
/// is at most the other's.
proof fn lemma_injection_len<A, B>(dom: Set<A>, target: Set<B>, f: spec_fn(A) -> B)
    requires
        dom.finite(),
        target.finite(),
        forall|a: A| #[trigger] dom.contains(a) ==> target.contains(f(a)),
        forall|a: A, b: A| dom.contains(a) && dom.contains(b) && #[trigger] f(a) == #[trigger] f(b) ==> a == b,
    ensures
        dom.len() <= target.len(),
{
    let img = dom.map(f);
    assert(vstd::relations::injective_on(f, dom));
    vstd::set_lib::lemma_map_size(dom, img, f);
    assert(img.subset_of(target)) by {
        assert forall|y: B| img.contains(y) implies target.contains(y) by {
            let a = choose|a: A| dom.contains(a) && f(a) == y;
        }
    }
    vstd::set_lib::lemma_len_subset(img, target);
}

/// In a table whose maps are each other's inverse, a client holds an
/// identifier exactly when the identifier leads back to it; there are as
/// many members as identifiers on record; and the table has no member
/// exactly when it has no identifier on record and its member count is 0.
pub proof fn law_paired_peer_tables_agree(v: PeerTableView, c: ClientId, g: i32)
    requires
        peer_table_wf(v),
        peers_paired(v),
    ensures
        (v.clients.contains_key(c) && v.clients[c] == g) <==> (v.godots.contains_key(g) && v.godots[g] == c),
        v.clients.dom().len() == v.godots.dom().len(),
        v.clients.is_empty() <==> v.godots.is_empty(),
        v.clients.is_empty() <==> v.clients.dom().len() == 0,
{
    let fc = |x: ClientId| v.clients[x];
    let fg = |y: i32| v.godots[y];
    assert forall|a: ClientId, b: ClientId|
        v.clients.dom().contains(a) && v.clients.dom().contains(b) && #[trigger] fc(a) == #[trigger] fc(b)
            implies a == b by {
        assert(v.godots[v.clients[a]] == a);
        assert(v.godots[v.clients[b]] == b);
    }
    lemma_injection_len(v.clients.dom(), v.godots.dom(), fc);
    assert forall|a: i32, b: i32|
        v.godots.dom().contains(a) && v.godots.dom().contains(b) && #[trigger] fg(a) == #[trigger] fg(b)
            implies a == b by {
        assert(v.clients[v.godots[a]] == a);
        assert(v.clients[v.godots[b]] == b);
    }
    lemma_injection_len(v.godots.dom(), v.clients.dom(), fg);
    if v.clients.dom().len() == 0 {
        assert(v.clients.dom() =~= Set::<ClientId>::empty());
        assert(v.godots.dom() =~= Set::<i32>::empty());
    }
    if v.clients.is_empty() {
        assert(v.clients.dom() =~= Set::<ClientId>::empty());
    }
}

/// A call on a peer table.
pub enum PeerCall {
    /// `add_peer` of `client`.
    Add { client: ClientId },
    /// `remove_peer` of `client`.
    Remove { client: ClientId },
}

/// The table just made.
pub open spec fn fresh_peer_table() -> PeerTableView {
    PeerTableView { clients: Map::<ClientId, i32>::empty(), godots: Map::<i32, ClientId>::empty(), next: 1 }
}

/// What the contracts of `add_peer` and `remove_peer` say `call` does to
/// `o` (an add only where `add_peer` can be called): the table after the
/// call may be `n`.
pub open spec fn peer_step(o: PeerTableView, call: PeerCall, n: PeerTableView) -> bool {
    match call {
        PeerCall::Add { client } => {
            &&& o.next < i32::MAX
            &&& n == PeerTableView {
                clients: o.clients.insert(client, o.next),
                godots: o.godots.insert(o.next, client),
                next: (o.next + 1) as i32,
            }
        },
        PeerCall::Remove { client } => {
            &&& n.next == o.next
            &&& n.clients == o.clients.remove(client)
            &&& o.clients.contains_key(client) ==> n.godots == o.godots.remove(o.clients[client])
            &&& !o.clients.contains_key(client) ==> n.godots == o.godots
        },
    }
}

/// `vs` is a run of a fresh table through `calls`: `vs[i]` is the table
/// before call `i`, and the last one the table after them all.
pub open spec fn fresh_peer_run(calls: Seq<PeerCall>, vs: Seq<PeerTableView>) -> bool {
    &&& vs.len() == calls.len() + 1
    &&& vs[0] == fresh_peer_table()
    &&& forall|i: int| 0 <= i < calls.len() ==> #[trigger] peer_step(vs[i], calls[i], vs[i + 1])
}

/// How many of `calls` are adds.
pub open spec fn adds_in(calls: Seq<PeerCall>) -> nat
    decreases calls.len(),
{
    if calls.len() == 0 {
        0
    } else if calls.last() is Add {
        adds_in(calls.drop_last()) + 1
    } else {
        adds_in(calls.drop_last())
    }
}

proof fn lemma_fresh_peer_prefix(calls: Seq<PeerCall>, vs: Seq<PeerTableView>, i: int)
    requires
        fresh_peer_run(calls, vs),
        0 <= i <= calls.len(),
    ensures
        vs[i].next == 1 + adds_in(calls.take(i)),
        peer_table_wf(vs[i]),
        (forall|j: int| 0 <= j < i ==> (#[trigger] calls[j] matches PeerCall::Add { client } ==> !vs[j].clients.contains_key(client)))
            ==> peers_paired(vs[i]),
    decreases i,
{
    if i == 0 {
        assert(calls.take(0) =~= Seq::<PeerCall>::empty());
        assert(vs[0].clients.dom() =~= Set::<ClientId>::empty());
        assert(vs[0].godots.dom() =~= Set::<i32>::empty());
    } else {
        let j = i - 1;
        lemma_fresh_peer_prefix(calls, vs, j);
        assert(calls.take(i).drop_last() =~= calls.take(j));
        assert(calls.take(i).last() == calls[j]);
        assert(peer_step(vs[j], calls[j], vs[j + 1]));
        assert(j + 1 == i);
        let o = vs[j];
        let n = vs[i];
        match calls[j] {
            PeerCall::Add { client } => {
                assert forall|g: i32| #[trigger] n.godots.contains_key(g) implies 1 <= g < n.next by {
                    if g != o.next {
                        assert(o.godots.contains_key(g));
                    }
                }
                assert forall|c: ClientId| #[trigger] n.clients.contains_key(c) implies {
                    &&& n.godots.contains_key(n.clients[c])
                    &&& n.godots[n.clients[c]] == c
                } by {
                    if c != client {
                        assert(o.clients.contains_key(c));
                        assert(o.godots.contains_key(o.clients[c]));
                        assert(o.clients[c] != o.next);
                    }
                }
                if forall|k: int| 0 <= k < i ==> (#[trigger] calls[k] matches PeerCall::Add { client } ==> !vs[k].clients.contains_key(client)) {
                    assert(calls[j] matches PeerCall::Add { client } ==> !vs[j].clients.contains_key(client));
                    lemma_add_keeps_paired(o, client, n);
                }
            },
            PeerCall::Remove { client } => {
                if o.clients.contains_key(client) {
                    let gone = o.clients[client];
                    assert forall|c: ClientId| #[trigger] n.clients.contains_key(c) implies {
                        &&& n.godots.contains_key(n.clients[c])
                        &&& n.godots[n.clients[c]] == c
                    } by {
                        assert(o.clients.contains_key(c));
                        assert(o.godots[o.clients[c]] == c);
                        assert(o.clients[c] != gone);
                    }
                    if peers_paired(o) {
                        assert forall|g: i32| #[trigger] n.godots.contains_key(g) implies {
                            &&& n.clients.contains_key(n.godots[g])
                            &&& n.clients[n.godots[g]] == g
                        } by {
                            assert(o.godots.contains_key(g));
                            assert(o.godots[g] != client);
                        }
                    }
                } else {
                    assert(n.clients =~= o.clients);
                }
            },
        }
    }
}

/// Peer identifiers are never reused: in any run of a fresh table through
/// adds and removes (every room's `add_peer` and `remove_peer` do to its
/// table what [`peer_step`] says), the `k`-th add hands out `k + 1`
/// (counting from zero), so each identifier handed out is greater than
/// every one handed out before, even by clients that left since. And while
/// only clients that are not members are added, the two maps stay each
/// other's inverse (see [`law_paired_peer_tables_agree`]).
pub proof fn law_peer_ids_never_reused(calls: Seq<PeerCall>, vs: Seq<PeerTableView>)
    requires
        fresh_peer_run(calls, vs),
    ensures
        forall|i: int| 0 <= i <= calls.len() ==> (#[trigger] vs[i]).next == 1 + adds_in(calls.take(i)),
        forall|i: int, j: int|
            0 <= i < j < calls.len() && calls[i] is Add ==> (#[trigger] vs[i]).next < (#[trigger] vs[j]).next,
        (forall|j: int| 0 <= j < calls.len() ==> (#[trigger] calls[j] matches PeerCall::Add { client } ==> !vs[j].clients.contains_key(client)))
            ==> forall|i: int| 0 <= i <= calls.len() ==> #[trigger] peers_paired(vs[i]),
{
    assert forall|i: int| 0 <= i <= calls.len() implies (#[trigger] vs[i]).next == 1 + adds_in(calls.take(i)) by {
        lemma_fresh_peer_prefix(calls, vs, i);
    }
    assert forall|i: int, j: int|
        0 <= i < j < calls.len() && calls[i] is Add implies (#[trigger] vs[i]).next < (#[trigger] vs[j]).next by {
        lemma_adds_grow(calls, i, j);
        assert(vs[j].next == 1 + adds_in(calls.take(j)));
        assert(vs[i].next == 1 + adds_in(calls.take(i)));
    }
    if forall|j: int| 0 <= j < calls.len() ==> (#[trigger] calls[j] matches PeerCall::Add { client } ==> !vs[j].clients.contains_key(client)) {
        assert forall|i: int| 0 <= i <= calls.len() implies #[trigger] peers_paired(vs[i]) by {
            lemma_fresh_peer_prefix(calls, vs, i);
        }
    }
}

proof fn lemma_adds_grow(calls: Seq<PeerCall>, i: int, j: int)
    requires
        0 <= i < j <= calls.len(),
        calls[i] is Add,
    ensures
        adds_in(calls.take(i)) < adds_in(calls.take(j)),
    decreases j - i,
{
    let t = calls.take(j);
    assert(t.drop_last() =~= calls.take(j - 1));
    assert(t.last() == calls[j - 1]);
    if j - 1 > i {
        lemma_adds_grow(calls, i, j - 1);
    } else {
        assert(j - 1 == i);
    }
}

} // verus!
