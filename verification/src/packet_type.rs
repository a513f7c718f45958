//! The packet layout spoken over the renet transport: one
//! identifying byte, then raw fields with no length prefixes (a string is
//! the UTF-8 of everything after the fixed-width fields).
use vstd::prelude::*;
use vstd::utf8::{decode_utf8, encode_utf8, valid_utf8};
use vstd::slice::slice_to_vec;
use crate::protocol::serialize::{i32_from_wire, i32_wire, lemma_i32_wire_roundtrip, push_bytes, string_from_utf8};

verus! {

#[derive(Debug, Clone)]
pub enum PacketType {
    CreateRoom,
    JoinRoom(String),
    ConnectedToRoom(String, i32),
    GameData(i32, Vec<u8>),
    PeerJoinedRoom(i32),
    PeerLeftRoom(i32),
    ForceDisconnect(),
    Authenticate(String),
    ClientAuthenticated(),
}

pub enum PacketTypeView {
    CreateRoom,
    JoinRoom(Seq<char>),
    ConnectedToRoom(Seq<char>, i32),
    GameData(i32, Seq<u8>),
    PeerJoinedRoom(i32),
    PeerLeftRoom(i32),
    ForceDisconnect,
    Authenticate(Seq<char>),
    ClientAuthenticated,
}

impl View for PacketType {
    type V = PacketTypeView;

    open spec fn view(&self) -> PacketTypeView {
        match self {
            PacketType::CreateRoom => PacketTypeView::CreateRoom,
            PacketType::JoinRoom(r) => PacketTypeView::JoinRoom(r@),
            PacketType::ConnectedToRoom(r, p) => PacketTypeView::ConnectedToRoom(r@, *p),
            PacketType::GameData(p, d) => PacketTypeView::GameData(*p, d@),
            PacketType::PeerJoinedRoom(p) => PacketTypeView::PeerJoinedRoom(*p),
            PacketType::PeerLeftRoom(p) => PacketTypeView::PeerLeftRoom(*p),
            PacketType::ForceDisconnect() => PacketTypeView::ForceDisconnect,
            PacketType::Authenticate(a) => PacketTypeView::Authenticate(a@),
            PacketType::ClientAuthenticated() => PacketTypeView::ClientAuthenticated,
        }
    }
}

/// Why a renet packet could not be decoded.
#[derive(Debug, Clone)]
pub enum PacketTypeError {
    /// "Empty packet".
    Empty,
    /// A string field was not valid UTF-8.
    InvalidUtf8,
    /// The packet ended inside a fixed-width field; the text names the packet.
    TooShort(String),
    /// The first byte names no packet kind.
    Unknown(u8),
}

pub enum PacketTypeErrorView {
    Empty,
    InvalidUtf8,
    TooShort(Seq<char>),
    Unknown(u8),
}

impl View for PacketTypeError {
    type V = PacketTypeErrorView;

    open spec fn view(&self) -> PacketTypeErrorView {
        match self {
            PacketTypeError::Empty => PacketTypeErrorView::Empty,
            PacketTypeError::InvalidUtf8 => PacketTypeErrorView::InvalidUtf8,
            PacketTypeError::TooShort(m) => PacketTypeErrorView::TooShort(m@),
            PacketTypeError::Unknown(id) => PacketTypeErrorView::Unknown(*id),
        }
    }
}

/// The bytes of a renet packet.
pub open spec fn renet_encode(p: PacketTypeView) -> Seq<u8> {
    match p {
        PacketTypeView::CreateRoom => seq![0u8],
        PacketTypeView::JoinRoom(r) => seq![1u8] + encode_utf8(r),
        PacketTypeView::ConnectedToRoom(r, pid) => seq![2u8] + i32_wire(pid) + encode_utf8(r),
        PacketTypeView::GameData(t, d) => seq![3u8] + i32_wire(t) + d,
        PacketTypeView::PeerJoinedRoom(pid) => seq![4u8] + i32_wire(pid),
        PacketTypeView::PeerLeftRoom(pid) => seq![5u8] + i32_wire(pid),
        PacketTypeView::ForceDisconnect => seq![6u8],
        PacketTypeView::Authenticate(a) => seq![7u8] + encode_utf8(a),
        PacketTypeView::ClientAuthenticated => seq![8u8],
    }
}

/// The string held by all of `b`.
pub open spec fn renet_text(b: Seq<u8>) -> Result<Seq<char>, PacketTypeErrorView> {
    if valid_utf8(b) {
        Ok(decode_utf8(b))
    } else {
        Err(PacketTypeErrorView::InvalidUtf8)
    }
}

/// The inputs on which decoding is defined: the peer-join and peer-leave
/// kinds read their identifier from bytes one to four, so a four-byte packet
/// of those kinds has no such identifier.
pub open spec fn renet_decodable(b: Seq<u8>) -> bool {
    !(b.len() == 4 && (b[0] == 4u8 || b[0] == 5u8))
}

/// The renet packet that `b` holds.
pub open spec fn renet_decode(b: Seq<u8>) -> Result<PacketTypeView, PacketTypeErrorView> {
    if b.len() == 0 {
        Err(PacketTypeErrorView::Empty)
    } else if b[0] == 0 {
        Ok(PacketTypeView::CreateRoom)
    } else if b[0] == 1 {
        match renet_text(b.skip(1)) {
            Ok(r) => Ok(PacketTypeView::JoinRoom(r)),
            Err(e) => Err(e),
        }
    } else if b[0] == 2 {
        if b.len() < 5 {
            Err(PacketTypeErrorView::TooShort("Packet too short for ConnectedToRoom"@))
        } else {
            match renet_text(b.skip(5)) {
                Ok(r) => Ok(PacketTypeView::ConnectedToRoom(r, i32_from_wire(b.skip(1)))),
                Err(e) => Err(e),
            }
        }
    } else if b[0] == 3 {
        if b.len() < 5 {
            Err(PacketTypeErrorView::TooShort("Packet too short for GameData"@))
        } else {
            Ok(PacketTypeView::GameData(i32_from_wire(b.skip(1)), b.skip(5)))
        }
    } else if b[0] == 4 {
        if b.len() < 4 {
            Err(PacketTypeErrorView::TooShort("Packet too short for PeerJoinedRoom"@))
        } else {
            Ok(PacketTypeView::PeerJoinedRoom(i32_from_wire(b.skip(1))))
        }
    } else if b[0] == 5 {
        if b.len() < 4 {
            Err(PacketTypeErrorView::TooShort("Packet too short for PeerLeftRoom"@))
        } else {
            Ok(PacketTypeView::PeerLeftRoom(i32_from_wire(b.skip(1))))
        }
    } else if b[0] == 6 {
        Ok(PacketTypeView::ForceDisconnect)
    } else if b[0] == 7 {
        match renet_text(b.skip(1)) {
            Ok(a) => Ok(PacketTypeView::Authenticate(a)),
            Err(e) => Err(e),
        }
    } else if b[0] == 8 {
        Ok(PacketTypeView::ClientAuthenticated)
    } else {
        Err(PacketTypeErrorView::Unknown(b[0]))
    }
}

/// Whether [`PacketType::from_bytes`] is defined on `bytes` (see
/// [`renet_decodable`]).
pub fn decodable(bytes: &[u8]) -> (r: bool)
    ensures
        r == renet_decodable(bytes@),
{
    !(bytes.len() == 4 && (bytes[0] == 4u8 || bytes[0] == 5u8))
}

pub open spec fn renet_result_view(r: Result<PacketType, PacketTypeError>) -> Result<
    PacketTypeView,
    PacketTypeErrorView,
> {
    match r {
        Ok(p) => Ok(p@),
        Err(e) => Err(e@),
    }
}

fn text_of(bytes: &[u8]) -> (r: Result<String, PacketTypeError>)
    ensures
        match r {
            Ok(s) => renet_text(bytes@) == Ok::<Seq<char>, PacketTypeErrorView>(s@),
            Err(e) => renet_text(bytes@) == Err::<Seq<char>, PacketTypeErrorView>(e@),
        },
{
    match string_from_utf8(slice_to_vec(bytes)) {
        Some(s) => Ok(s),
        None => Err(PacketTypeError::InvalidUtf8),
    }
}

fn peer_id_at(bytes: &[u8]) -> (v: i32)
    requires
        bytes.len() >= 5,
    ensures
        v == i32_from_wire(bytes@.skip(1)),
{
    ((bytes[1] as u32) << 24u32 | (bytes[2] as u32) << 16u32 | (bytes[3] as u32) << 8u32
        | (bytes[4] as u32)) as i32
}

impl PacketType {
    /// Decodes a renet packet.
    pub fn from_bytes(bytes: &[u8]) -> (r: Result<Self, PacketTypeError>)
        requires
            renet_decodable(bytes@),
        ensures
            renet_result_view(r) == renet_decode(bytes@),
    {
        if bytes.len() == 0 {
            return Err(PacketTypeError::Empty);
        }
        let id = bytes[0];
        if id == 0 {
            Ok(PacketType::CreateRoom)
        } else if id == 1 {
            match text_of(&bytes[1..bytes.len()]) {
                Ok(room_id) => Ok(PacketType::JoinRoom(room_id)),
                Err(e) => Err(e),
            }
        } else if id == 2 {
            if bytes.len() < 5 {
                return Err(PacketTypeError::TooShort("Packet too short for ConnectedToRoom".to_string()));
            }
            let peer_id = peer_id_at(bytes);
            match text_of(&bytes[5..bytes.len()]) {
                Ok(room_id) => Ok(PacketType::ConnectedToRoom(room_id, peer_id)),
                Err(e) => Err(e),
            }
        } else if id == 3 {
            if bytes.len() < 5 {
                return Err(PacketTypeError::TooShort("Packet too short for GameData".to_string()));
            }
            let from_pid = peer_id_at(bytes);
            Ok(PacketType::GameData(from_pid, slice_to_vec(&bytes[5..bytes.len()])))
        } else if id == 4 {
            if bytes.len() < 4 {
                return Err(PacketTypeError::TooShort("Packet too short for PeerJoinedRoom".to_string()));
            }
            Ok(PacketType::PeerJoinedRoom(peer_id_at(bytes)))
        } else if id == 5 {
            if bytes.len() < 4 {
                return Err(PacketTypeError::TooShort("Packet too short for PeerLeftRoom".to_string()));
            }
            Ok(PacketType::PeerLeftRoom(peer_id_at(bytes)))
        } else if id == 6 {
            Ok(PacketType::ForceDisconnect())
        } else if id == 7 {
            match text_of(&bytes[1..bytes.len()]) {
                Ok(app_id) => Ok(PacketType::Authenticate(app_id)),
                Err(e) => Err(e),
            }
        } else if id == 8 {
            Ok(PacketType::ClientAuthenticated())
        } else {
            Err(PacketTypeError::Unknown(id))
        }
    }

    /// Encodes a renet packet.
    pub fn to_bytes(&self) -> (r: Vec<u8>)
        ensures
            r@ == renet_encode(self@),
    {
        let mut result: Vec<u8> = Vec::new();
        match self {
            PacketType::CreateRoom => {
                result.push(0);
            },
            PacketType::JoinRoom(room_id) => {
                result.push(1);
                push_bytes(&mut result, room_id.as_str().as_bytes());
            },
            PacketType::ConnectedToRoom(room_id, godot_pid) => {
                result.push(2);
                crate::protocol::serialize::push_i32(&mut result, *godot_pid);
                push_bytes(&mut result, room_id.as_str().as_bytes());
            },
            PacketType::GameData(target, data) => {
                result.push(3);
                crate::protocol::serialize::push_i32(&mut result, *target);
                push_bytes(&mut result, data.as_slice());
            },
            PacketType::PeerJoinedRoom(godot_pid) => {
                result.push(4);
                crate::protocol::serialize::push_i32(&mut result, *godot_pid);
            },
            PacketType::PeerLeftRoom(godot_pid) => {
                result.push(5);
                crate::protocol::serialize::push_i32(&mut result, *godot_pid);
            },
            PacketType::ForceDisconnect() => {
                result.push(6);
            },
            PacketType::Authenticate(app_id) => {
                result.push(7);
                push_bytes(&mut result, app_id.as_str().as_bytes());
            },
            PacketType::ClientAuthenticated() => {
                result.push(8);
            },
        }
        proof {
            assert(result@ =~= renet_encode(self@));
        }
        result
    }
}

/// Every renet packet can be decoded from its bytes, and decoding
/// gives the packet back.
pub proof fn law_renet_decode_encode(p: PacketTypeView)
    ensures
        renet_decodable(renet_encode(p)),
        renet_decode(renet_encode(p)) == Ok::<PacketTypeView, PacketTypeErrorView>(p),
{
    let b = renet_encode(p);
    match p {
        PacketTypeView::JoinRoom(r) => {
            assert(b.skip(1) =~= encode_utf8(r));
            vstd::utf8::encode_utf8_valid_utf8(r);
            vstd::utf8::encode_utf8_decode_utf8(r);
        },
        PacketTypeView::Authenticate(r) => {
            assert(b.skip(1) =~= encode_utf8(r));
            vstd::utf8::encode_utf8_valid_utf8(r);
            vstd::utf8::encode_utf8_decode_utf8(r);
        },
        PacketTypeView::ConnectedToRoom(r, pid) => {
            lemma_i32_wire_roundtrip(pid);
            assert(b.skip(5) =~= encode_utf8(r));
            assert(b.skip(1).take(4) =~= i32_wire(pid));
            assert(i32_from_wire(b.skip(1)) == i32_from_wire(i32_wire(pid)));
            vstd::utf8::encode_utf8_valid_utf8(r);
            vstd::utf8::encode_utf8_decode_utf8(r);
        },
        PacketTypeView::GameData(t, d) => {
            lemma_i32_wire_roundtrip(t);
            assert(b.skip(5) =~= d);
            assert(i32_from_wire(b.skip(1)) == i32_from_wire(i32_wire(t)));
        },
        PacketTypeView::PeerJoinedRoom(pid) => {
            lemma_i32_wire_roundtrip(pid);
            assert(i32_from_wire(b.skip(1)) == i32_from_wire(i32_wire(pid)));
        },
        PacketTypeView::PeerLeftRoom(pid) => {
            lemma_i32_wire_roundtrip(pid);
            assert(i32_from_wire(b.skip(1)) == i32_from_wire(i32_wire(pid)));
        },
        _ => {},
    }
}

} // verus!
