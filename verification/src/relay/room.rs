//! Room identifiers drawn at random, and the relay's named rooms with an
//! optional player limit.
use vstd::prelude::*;
use std::collections::HashSet;
use rand::Rng;
use crate::peers::{ClientId, PeerTable, PeerTableView};
use crate::protocol::packet::RoomInfo;

verus! {

broadcast use vstd::std_specs::hash::group_hash_axioms;

/// The characters a room identifier is made of (no `I`, `O` or `0`, which
/// are easily mistaken for one another).
const ID_CHARS: &'static str = "ABCDEFGHJKLMNPQRSTUVWXYZ123456789";

/// How many characters a room identifier has.
pub const ID_LENGTH: usize = 5;

/// How many room identifiers there are: 33 characters at each of 5 places.
pub const ID_SPACE: u32 = 39135393;

/// The characters a room identifier is made of.
pub open spec fn id_alphabet() -> Seq<char> {
    seq![
        'A', 'B', 'C', 'D', 'E', 'F', 'G', 'H', 'J', 'K', 'L', 'M', 'N', 'P', 'Q', 'R', 'S', 'T',
        'U', 'V', 'W', 'X', 'Y', 'Z', '1', '2', '3', '4', '5', '6', '7', '8', '9',
    ]
}

/// Identifiers are numbered by reading their characters as base-33 digits,
/// the first character being the most significant.
pub open spec fn code_of_digits(d0: int, d1: int, d2: int, d3: int, d4: int) -> int {
    (((d0 * 33 + d1) * 33 + d2) * 33 + d3) * 33 + d4
}

/// The identifier numbered `c`.
pub open spec fn id_of_code(c: int) -> Seq<char> {
    let a = id_alphabet();
    seq![
        a[(c / 33 / 33 / 33 / 33) % 33],
        a[(c / 33 / 33 / 33) % 33],
        a[(c / 33 / 33) % 33],
        a[(c / 33) % 33],
        a[c % 33],
    ]
}

pub open spec fn is_id_char(ch: char) -> bool {
    exists|j: int| 0 <= j < 33 && id_alphabet()[j] == ch
}

pub open spec fn digit_of(ch: char) -> int {
    choose|j: int| 0 <= j < 33 && id_alphabet()[j] == ch
}

/// The number of the identifier `s`, if `s` is an identifier.
pub open spec fn parse_id(s: Seq<char>) -> Option<int> {
    if s.len() == ID_LENGTH && forall|k: int| 0 <= k < 5 ==> is_id_char(#[trigger] s[k]) {
        Some(code_of_digits(digit_of(s[0]), digit_of(s[1]), digit_of(s[2]), digit_of(s[3]), digit_of(s[4])))
    } else {
        None
    }
}

proof fn lemma_id_chars()
    ensures
        ID_CHARS@ == id_alphabet(),
{
    reveal_strlit("ABCDEFGHJKLMNPQRSTUVWXYZ123456789");
    assert(ID_CHARS@ =~= id_alphabet());
}

proof fn lemma_alphabet()
    ensures
        ID_CHARS@ == id_alphabet(),
        forall|i: int, j: int| 0 <= i < 33 && 0 <= j < 33 && i != j ==> id_alphabet()[i] != id_alphabet()[j],
{
    lemma_id_chars();
}

proof fn lemma_digit_of(j: int)
    requires
        0 <= j < 33,
    ensures
        is_id_char(id_alphabet()[j]),
        digit_of(id_alphabet()[j]) == j,
{
    lemma_alphabet();
    let ch = id_alphabet()[j];
    assert(is_id_char(ch));
    let k = digit_of(ch);
    assert(0 <= k < 33 && id_alphabet()[k] == ch);
}

proof fn lemma_code_digits(d0: int, d1: int, d2: int, d3: int, d4: int)
    requires
        0 <= d0 < 33,
        0 <= d1 < 33,
        0 <= d2 < 33,
        0 <= d3 < 33,
        0 <= d4 < 33,
    ensures
        ({
            let c = code_of_digits(d0, d1, d2, d3, d4);
            &&& 0 <= c < ID_SPACE
            &&& c % 33 == d4
            &&& (c / 33) % 33 == d3
            &&& (c / 33 / 33) % 33 == d2
            &&& (c / 33 / 33 / 33) % 33 == d1
            &&& (c / 33 / 33 / 33 / 33) % 33 == d0
        }),
{
    let q3 = ((d0 * 33 + d1) * 33 + d2) * 33 + d3;
    let q2 = (d0 * 33 + d1) * 33 + d2;
    let q1 = d0 * 33 + d1;
    let c = q3 * 33 + d4;
    vstd::arithmetic::div_mod::lemma_fundamental_div_mod_converse(c, 33, q3, d4);
    vstd::arithmetic::div_mod::lemma_fundamental_div_mod_converse(q3, 33, q2, d3);
    vstd::arithmetic::div_mod::lemma_fundamental_div_mod_converse(q2, 33, q1, d2);
    vstd::arithmetic::div_mod::lemma_fundamental_div_mod_converse(q1, 33, d0, d1);
    vstd::arithmetic::div_mod::lemma_fundamental_div_mod_converse(d0, 33, 0, d0);
}

/// Reading back the identifier numbered `c` gives `c`.
pub proof fn law_parse_id_of_code(c: int)
    requires
        0 <= c < ID_SPACE,
    ensures
        parse_id(id_of_code(c)) == Some(c),
{
    let q1 = c / 33;
    let q2 = q1 / 33;
    let q3 = q2 / 33;
    let q4 = q3 / 33;
    vstd::arithmetic::div_mod::lemma_fundamental_div_mod(c, 33);
    vstd::arithmetic::div_mod::lemma_fundamental_div_mod(q1, 33);
    vstd::arithmetic::div_mod::lemma_fundamental_div_mod(q2, 33);
    vstd::arithmetic::div_mod::lemma_fundamental_div_mod(q3, 33);
    vstd::arithmetic::div_mod::lemma_fundamental_div_mod(q4, 33);
    assert(q4 < 33);
    lemma_digit_of(q4 % 33);
    lemma_digit_of(q3 % 33);
    lemma_digit_of(q2 % 33);
    lemma_digit_of(q1 % 33);
    lemma_digit_of(c % 33);
    let s = id_of_code(c);
    assert(forall|k: int| 0 <= k < 5 ==> is_id_char(#[trigger] s[k]));
}

/// Distinct identifier numbers name distinct identifiers.
pub proof fn law_id_of_code_injective(c1: int, c2: int)
    requires
        0 <= c1 < ID_SPACE,
        0 <= c2 < ID_SPACE,
        id_of_code(c1) == id_of_code(c2),
    ensures
        c1 == c2,
{
    law_parse_id_of_code(c1);
    law_parse_id_of_code(c2);
}

#[verifier::external_type_specification]
#[verifier::external_body]
pub struct ExThreadRng(rand::rngs::ThreadRng);

/// Calls `rand::rng`, which hands out the calling thread's generator.
/// Nothing is claimed of the generator's state.
#[verifier::external_body]
fn thread_rng() -> rand::rngs::ThreadRng {
    rand::rng()
}

/// Calls `Rng::random_range` on `0..bound`. Its documentation: the result
/// lies in the range, and the call panics on an empty range, which
/// `requires` leaves out. Which value comes out is left to chance.
#[verifier::external_body]
fn random_below(rng: &mut rand::rngs::ThreadRng, bound: usize) -> (r: usize)
    requires
        bound > 0,
    ensures
        r < bound,
{
    rng.random_range(0..bound)
}

/// The room identifiers in use, kept by number.
pub struct RoomIds {
    used: HashSet<u32>,
}

impl View for RoomIds {
    type V = Set<u32>;

    closed spec fn view(&self) -> Set<u32> {
        self.used@
    }
}

impl RoomIds {
    /// Every identifier in use has a number below [`ID_SPACE`].
    pub open spec fn wf(&self) -> bool {
        &&& self@.finite()
        &&& forall|c: u32| #[trigger] self@.contains(c) ==> c < ID_SPACE
    }

    pub fn new() -> (r: Self)
        ensures
            r.wf(),
            r@ == Set::<u32>::empty(),
    {
        Self { used: HashSet::new() }
    }

    fn id_string(d0: usize, d1: usize, d2: usize, d3: usize, d4: usize) -> (s: String)
        requires
            d0 < 33,
            d1 < 33,
            d2 < 33,
            d3 < 33,
            d4 < 33,
        ensures
            s@ == id_of_code(code_of_digits(d0 as int, d1 as int, d2 as int, d3 as int, d4 as int)),
    {
        proof {
            lemma_id_chars();
            lemma_code_digits(d0 as int, d1 as int, d2 as int, d3 as int, d4 as int);
            reveal_strlit("");
        }
        let mut s = "".to_string();
        s.append(ID_CHARS.substring_char(d0, d0 + 1));
        s.append(ID_CHARS.substring_char(d1, d1 + 1));
        s.append(ID_CHARS.substring_char(d2, d2 + 1));
        s.append(ID_CHARS.substring_char(d3, d3 + 1));
        s.append(ID_CHARS.substring_char(d4, d4 + 1));
        assert(s@ =~= id_of_code(code_of_digits(d0 as int, d1 as int, d2 as int, d3 as int, d4 as int)));
        s
    }

    /// Draws a room identifier that is not in use, marks it used and returns
    /// it. Identifiers are drawn character by character at random until an
    /// unused one comes up; should `u64::MAX` draws all hit used identifiers,
    /// the first unused identifier in numbering order is taken.
    pub fn generate(&mut self) -> (id: String)
        requires
            old(self).wf(),
            old(self)@.len() < ID_SPACE,
        ensures
            final(self).wf(),
            exists|c: u32| {
                &&& c < ID_SPACE
                &&& !old(self)@.contains(c)
                &&& final(self)@ == old(self)@.insert(c)
                &&& id@ == id_of_code(c as int)
            },
    {
        let mut attempts: u64 = 0;
        while attempts < u64::MAX
            invariant
                self@ == old(self)@,
                self.wf(),
            decreases u64::MAX - attempts,
        {
            let mut rng = thread_rng();
            let d0 = random_below(&mut rng, 33);
            let d1 = random_below(&mut rng, 33);
            let d2 = random_below(&mut rng, 33);
            let d3 = random_below(&mut rng, 33);
            let d4 = random_below(&mut rng, 33);
            proof {
                lemma_code_digits(d0 as int, d1 as int, d2 as int, d3 as int, d4 as int);
            }
            let code: u32 = ((((d0 * 33 + d1) * 33 + d2) * 33 + d3) * 33 + d4) as u32;
            if self.used.insert(code) {
                return Self::id_string(d0, d1, d2, d3, d4);
            }
            attempts += 1;
        }
        let mut code: u32 = 0;
        while code < ID_SPACE
            invariant
                self@ == old(self)@,
                self.wf(),
                self@.len() < ID_SPACE,
                code <= ID_SPACE,
                forall|c: u32| c < code ==> #[trigger] self@.contains(c),
            decreases ID_SPACE - code,
        {
            if self.used.insert(code) {
                let c = code as usize;
                let d4 = c % 33;
                let d3 = (c / 33) % 33;
                let d2 = (c / 33 / 33) % 33;
                let d1 = (c / 33 / 33 / 33) % 33;
                let d0 = (c / 33 / 33 / 33 / 33) % 33;
                proof {
                    law_parse_id_of_code(c as int);
                    lemma_code_digits(d0 as int, d1 as int, d2 as int, d3 as int, d4 as int);
                    let q1 = c as int / 33;
                    let q2 = q1 / 33;
                    let q3 = q2 / 33;
                    let q4 = q3 / 33;
                    vstd::arithmetic::div_mod::lemma_fundamental_div_mod(c as int, 33);
                    vstd::arithmetic::div_mod::lemma_fundamental_div_mod(q1, 33);
                    vstd::arithmetic::div_mod::lemma_fundamental_div_mod(q2, 33);
                    vstd::arithmetic::div_mod::lemma_fundamental_div_mod(q3, 33);
                    vstd::arithmetic::div_mod::lemma_fundamental_div_mod(q4, 33);
                    assert(code_of_digits(d0 as int, d1 as int, d2 as int, d3 as int, d4 as int) == c);
                }
                return Self::id_string(d0, d1, d2, d3, d4);
            }
            code += 1;
        }
        proof {
            let range = Set::<u32>::range(0, ID_SPACE);
            vstd::set_lib::range_set_properties::<u32>(0, ID_SPACE);
            assert(range.subset_of(self@));
            vstd::set_lib::lemma_len_subset(range, self@);
        }
        assert(false);
        "".to_string()
    }

    fn digit_of_char(ch: char) -> (r: Option<usize>)
        ensures
            match r {
                Some(j) => is_id_char(ch) && j == digit_of(ch),
                None => !is_id_char(ch),
            },
    {
        proof {
            lemma_alphabet();
        }
        let mut j: usize = 0;
        while j < 33
            invariant
                j <= 33,
                ID_CHARS@ == id_alphabet(),
                forall|k: int| 0 <= k < j ==> id_alphabet()[k] != ch,
            decreases 33 - j,
        {
            if ID_CHARS.get_char(j) == ch {
                proof {
                    lemma_digit_of(j as int);
                }
                return Some(j);
            }
            j += 1;
        }
        None
    }

    /// How many identifiers are in use.
    pub fn len(&self) -> (r: usize)
        ensures
            r == self@.len(),
    {
        self.used.len()
    }

    /// Marks the identifier `id` unused again.
    pub fn free(&mut self, id: &str)
        ensures
            match parse_id(id@) {
                Some(c) => final(self)@ == old(self)@.remove(c as u32),
                None => final(self)@ == old(self)@,
            },
            old(self).wf() ==> final(self).wf(),
    {
        if id.unicode_len() != ID_LENGTH {
            return;
        }
        proof {
            assert(id@.len() == 5);
        }
        let c0 = id.get_char(0);
        let c1 = id.get_char(1);
        let c2 = id.get_char(2);
        let c3 = id.get_char(3);
        let c4 = id.get_char(4);
        let (d0, d1, d2, d3, d4) = match (
            Self::digit_of_char(c0),
            Self::digit_of_char(c1),
            Self::digit_of_char(c2),
            Self::digit_of_char(c3),
            Self::digit_of_char(c4),
        ) {
            (Some(d0), Some(d1), Some(d2), Some(d3), Some(d4)) => (d0, d1, d2, d3, d4),
            _ => {
                return;
            },
        };
        proof {
            lemma_code_digits(d0 as int, d1 as int, d2 as int, d3 as int, d4 as int);
            assert(forall|k: int| 0 <= k < 5 ==> is_id_char(#[trigger] id@[k]));
        }
        let code: u32 = ((((d0 * 33 + d1) * 33 + d2) * 33 + d3) * 33 + d4) as u32;
        self.used.remove(&code);
        proof {
            assert forall|c: u32| #[trigger] self@.contains(c) implies old(self)@.contains(c) by {}
        }
    }
}

/// A named room of the relay, public or not, with a player limit (`-1`
/// for none).
#[derive(Debug)]
pub struct Room {
    pub id: String,
    pub is_public: bool,
    pub name: String,
    pub max_players: i32,
    host_id: ClientId,
    peers: PeerTable,
}

pub struct RoomView {
    pub id: Seq<char>,
    pub is_public: bool,
    pub name: Seq<char>,
    pub max_players: i32,
    pub host: ClientId,
    pub peers: PeerTableView,
}

impl View for Room {
    type V = RoomView;

    closed spec fn view(&self) -> RoomView {
        RoomView {
            id: self.id@,
            is_public: self.is_public,
            name: self.name@,
            max_players: self.max_players,
            host: self.host_id,
            peers: self.peers@,
        }
    }
}

/// Whether a room with `count` players and limit `max_players` is full.
pub open spec fn room_full(count: int, max_players: i32) -> bool {
    max_players != -1 && count >= max_players
}

impl Room {
    pub open spec fn wf(&self) -> bool {
        crate::peers::peer_table_wf(self@.peers)
    }

    pub fn new(id: String, host_id: ClientId, is_public: bool, name: String, max_players: i32) -> (r:
        Self)
        ensures
            r.wf(),
            r@.id == id@,
            r@.is_public == is_public,
            r@.name == name@,
            r@.max_players == max_players,
            r@.host == host_id,
            r@.peers.clients == Map::<ClientId, i32>::empty(),
            r@.peers.godots == Map::<i32, ClientId>::empty(),
            r@.peers.next == 1,
            crate::peers::peers_paired(r@.peers),
    {
        Self { id, is_public, name, max_players, host_id, peers: PeerTable::new() }
    }

    /// What a room list says of this room: its id, how many members it has,
    /// its name and its limit.
    pub fn to_info(&self) -> (info: RoomInfo)
        requires
            self.wf(),
        ensures
            info.id@ == self@.id,
            info.players == self@.peers.clients.dom().len(),
            info.name@ == self@.name,
            info.max_players == self@.max_players,
    {
        let members = self.get_renet_ids();
        proof {
            self.peers.lemma_client_count_bound();
            members@.unique_seq_to_set();
        }
        RoomInfo {
            id: self.id.clone(),
            players: members.len() as i32,
            name: self.name.clone(),
            max_players: self.max_players,
        }
    }

    /// Gives `client_id` the room's next peer identifier and returns it.
    pub fn add_peer(&mut self, client_id: ClientId) -> (godot_pid: i32)
        requires
            old(self).wf(),
            old(self)@.peers.next < i32::MAX,
        ensures
            final(self).wf(),
            final(self)@ == (RoomView { peers: final(self)@.peers, ..old(self)@ }),
            godot_pid == old(self)@.peers.next,
            final(self)@.peers.clients == old(self)@.peers.clients.insert(client_id, godot_pid),
            final(self)@.peers.godots == old(self)@.peers.godots.insert(godot_pid, client_id),
            final(self)@.peers.next == godot_pid + 1,
            crate::peers::peers_paired(old(self)@.peers) && !old(self)@.peers.clients.contains_key(client_id)
                ==> crate::peers::peers_paired(final(self)@.peers),
    {
        self.peers.add_peer(client_id)
    }

    /// The member clients, each once, in no particular order.
    pub fn get_renet_ids(&self) -> (r: Vec<ClientId>)
        ensures
            r@.to_set() == self@.peers.clients.dom(),
            r@.no_duplicates(),
            r@.len() == self@.peers.clients.dom().len(),
    {
        self.peers.client_ids()
    }

    /// The peer identifiers on record, each once, in no particular order.
    pub fn get_godot_ids(&self) -> (r: Vec<i32>)
        ensures
            r@.to_set() == self@.peers.godots.dom(),
            r@.no_duplicates(),
            r@.len() == self@.peers.godots.dom().len(),
    {
        self.peers.godot_ids()
    }

    pub fn get_godot_id(&self, client_id: ClientId) -> (r: Option<i32>)
        ensures
            r == (if self@.peers.clients.contains_key(client_id) {
                Some(self@.peers.clients[client_id])
            } else {
                None::<i32>
            }),
    {
        self.peers.godot_id(client_id)
    }

    pub fn get_renet_id(&self, godot_id: i32) -> (r: Option<ClientId>)
        ensures
            r == (if self@.peers.godots.contains_key(godot_id) {
                Some(self@.peers.godots[godot_id])
            } else {
                None::<ClientId>
            }),
    {
        self.peers.client_id(godot_id)
    }

    pub fn get_host(&self) -> (r: ClientId)
        ensures
            r == self@.host,
    {
        self.host_id
    }

    /// Removes `renet_id` and its peer identifier from the room.
    pub fn remove_peer(&mut self, renet_id: ClientId)
        requires
            old(self).wf(),
        ensures
            final(self).wf(),
            final(self)@ == (RoomView { peers: final(self)@.peers, ..old(self)@ }),
            final(self)@.peers.next == old(self)@.peers.next,
            final(self)@.peers.clients == old(self)@.peers.clients.remove(renet_id),
            old(self)@.peers.clients.contains_key(renet_id) ==> final(self)@.peers.godots
                == old(self)@.peers.godots.remove(old(self)@.peers.clients[renet_id]),
            !old(self)@.peers.clients.contains_key(renet_id) ==> final(self)@.peers
                == old(self)@.peers,
            crate::peers::peers_paired(old(self)@.peers) ==> crate::peers::peers_paired(final(self)@.peers),
    {
        let _ = self.peers.remove_peer(renet_id);
        proof {
            if !old(self)@.peers.clients.contains_key(renet_id) {
                assert(old(self)@.peers.clients.remove(renet_id) =~= old(self)@.peers.clients);
            }
        }
    }

    /// How many peer identifiers are on record.
    pub fn get_player_count(&self) -> (r: i32)
        requires
            self.wf(),
        ensures
            r == self@.peers.godots.dom().len(),
    {
        proof {
            self.peers.lemma_godot_count_bound();
        }
        self.peers.godot_count() as i32
    }

    /// Whether the room has no member.
    pub fn is_empty(&self) -> (r: bool)
        ensures
            r == self@.peers.clients.is_empty(),
    {
        self.peers.has_no_clients()
    }

    /// Whether the room is at its limit; a room without limit never is.
    pub fn is_full(&self) -> (r: bool)
        requires
            self.wf(),
        ensures
            r == room_full(self@.peers.godots.dom().len() as int, self@.max_players),
    {
        if self.max_players == -1 {
            return false;
        }
        self.get_player_count() >= self.max_players
    }
}

/// In a room whose peer maps are each other's inverse (as `new` makes it,
/// `add_peer` of a client that is not a member keeps it, and `remove_peer`
/// keeps it): `get_godot_id(c)` is `Some(g)` exactly when `get_renet_id(g)`
/// is `Some(c)`; the member list (`get_renet_ids`) is as long as the list of identifiers
/// (`get_godot_ids`) and as the player count (`get_player_count`);
/// and `is_empty` holds exactly when the player count is 0.
pub proof fn law_room_peers_agree(v: RoomView, c: ClientId, g: i32)
    requires
        crate::peers::peer_table_wf(v.peers),
        crate::peers::peers_paired(v.peers),
    ensures
        (v.peers.clients.contains_key(c) && v.peers.clients[c] == g) <==> (v.peers.godots.contains_key(g)
            && v.peers.godots[g] == c),
        v.peers.clients.dom().len() == v.peers.godots.dom().len(),
        v.peers.clients.is_empty() <==> v.peers.godots.dom().len() == 0,
{
    crate::peers::law_paired_peer_tables_agree(v.peers, c, g);
}

} // verus!
