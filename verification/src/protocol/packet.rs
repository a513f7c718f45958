//! The packets exchanged between clients and the relay, and their byte
//! layout: one identifying byte followed by the packet's fields.
use vstd::prelude::*;
use vstd::utf8::encode_utf8;
use vstd::slice::slice_to_vec;
use crate::protocol::error::{ProtocolError, ProtocolErrorView};
use crate::protocol::ids::{
    AUTHENTICATE, CLIENT_AUTHENTICATED, CONNECTED_TO_ROOM, CREATE_ROOM, ERROR_PACKET, FORCE_DISCONNECT,
    GAME_DATA, JOIN_ROOM, PEER_JOINED, PEER_LEFT,
};
use crate::protocol::serialize::{
    i32_wire, law_read_i32_consumes_encoding, law_read_i32_of_push, law_read_string_consumes_encoding,
    law_read_string_of_push, push_bytes, push_i32, push_string, read_i32, read_i32_spec, read_string,
    read_string_spec, string_wire,
};

verus! {

/// A packet of the relay protocol.
#[derive(Debug, Clone)]
pub enum PacketType {
    Authenticate { app_id: String, version: String },
    ClientAuthenticated,
    CreateRoom,
    JoinRoom { room_id: String },
    ConnectedToRoom { room_id: String, peer_id: i32 },
    PeerJoinedRoom { peer_id: i32 },
    PeerLeftRoom { peer_id: i32 },
    GameData { from_peer: i32, data: Vec<u8> },
    ForceDisconnect,
    Error { error_code: i32, error_message: String },
}

/// The mathematical content of a [`PacketType`].
pub enum PacketView {
    Authenticate { app_id: Seq<char>, version: Seq<char> },
    ClientAuthenticated,
    CreateRoom,
    JoinRoom { room_id: Seq<char> },
    ConnectedToRoom { room_id: Seq<char>, peer_id: i32 },
    PeerJoinedRoom { peer_id: i32 },
    PeerLeftRoom { peer_id: i32 },
    GameData { from_peer: i32, data: Seq<u8> },
    ForceDisconnect,
    Error { error_code: i32, error_message: Seq<char> },
}

impl View for PacketType {
    type V = PacketView;

    open spec fn view(&self) -> PacketView {
        match self {
            PacketType::Authenticate { app_id, version } => PacketView::Authenticate {
                app_id: app_id@,
                version: version@,
            },
            PacketType::ClientAuthenticated => PacketView::ClientAuthenticated,
            PacketType::CreateRoom => PacketView::CreateRoom,
            PacketType::JoinRoom { room_id } => PacketView::JoinRoom { room_id: room_id@ },
            PacketType::ConnectedToRoom { room_id, peer_id } => PacketView::ConnectedToRoom {
                room_id: room_id@,
                peer_id: *peer_id,
            },
            PacketType::PeerJoinedRoom { peer_id } => PacketView::PeerJoinedRoom { peer_id: *peer_id },
            PacketType::PeerLeftRoom { peer_id } => PacketView::PeerLeftRoom { peer_id: *peer_id },
            PacketType::GameData { from_peer, data } => PacketView::GameData {
                from_peer: *from_peer,
                data: data@,
            },
            PacketType::ForceDisconnect => PacketView::ForceDisconnect,
            PacketType::Error { error_code, error_message } => PacketView::Error {
                error_code: *error_code,
                error_message: error_message@,
            },
        }
    }
}

/// What a room list says of one public room.
#[derive(Debug, Clone)]
pub struct RoomInfo {
    pub id: String,
    pub players: i32,
    pub name: String,
    pub max_players: i32,
}

/// Why a packet could not be decoded.
#[derive(Debug, Clone)]
pub enum PacketError {
    /// The packet held no byte at all.
    Empty,
    /// The first byte names no packet kind.
    UnknownType(u8),
    /// A field could not be read.
    Protocol(ProtocolError),
}

pub enum PacketErrorView {
    Empty,
    UnknownType(u8),
    Protocol(ProtocolErrorView),
}

impl View for PacketError {
    type V = PacketErrorView;

    open spec fn view(&self) -> PacketErrorView {
        match self {
            PacketError::Empty => PacketErrorView::Empty,
            PacketError::UnknownType(id) => PacketErrorView::UnknownType(*id),
            PacketError::Protocol(e) => PacketErrorView::Protocol(e@),
        }
    }
}

/// The bytes of a packet.
pub open spec fn encode_packet(p: PacketView) -> Seq<u8> {
    match p {
        PacketView::Authenticate { app_id, version } => seq![AUTHENTICATE] + string_wire(app_id)
            + string_wire(version),
        PacketView::ClientAuthenticated => seq![CLIENT_AUTHENTICATED],
        PacketView::CreateRoom => seq![CREATE_ROOM],
        PacketView::JoinRoom { room_id } => seq![JOIN_ROOM] + string_wire(room_id),
        PacketView::ConnectedToRoom { room_id, peer_id } => seq![CONNECTED_TO_ROOM] + string_wire(
            room_id,
        ) + i32_wire(peer_id),
        PacketView::PeerJoinedRoom { peer_id } => seq![PEER_JOINED] + i32_wire(peer_id),
        PacketView::PeerLeftRoom { peer_id } => seq![PEER_LEFT] + i32_wire(peer_id),
        PacketView::GameData { from_peer, data } => seq![GAME_DATA] + i32_wire(from_peer) + data,
        PacketView::ForceDisconnect => seq![FORCE_DISCONNECT],
        PacketView::Error { error_code, error_message } => seq![ERROR_PACKET] + i32_wire(error_code)
            + string_wire(error_message),
    }
}

/// The packet that `b` holds. Fields are read front to back; bytes after
/// the last field are ignored, except for game data, which keeps them all.
pub open spec fn decode_packet(b: Seq<u8>) -> Result<PacketView, PacketErrorView> {
    if b.len() == 0 {
        Err(PacketErrorView::Empty)
    } else {
        let id = b[0];
        let rest = b.skip(1);
        if id == AUTHENTICATE {
            match read_string_spec(rest) {
                Err(e) => Err(PacketErrorView::Protocol(e)),
                Ok((app_id, r)) => match read_string_spec(r) {
                    Err(e) => Err(PacketErrorView::Protocol(e)),
                    Ok((version, _)) => Ok(PacketView::Authenticate { app_id, version }),
                },
            }
        } else if id == CLIENT_AUTHENTICATED {
            Ok(PacketView::ClientAuthenticated)
        } else if id == CREATE_ROOM {
            Ok(PacketView::CreateRoom)
        } else if id == JOIN_ROOM {
            match read_string_spec(rest) {
                Err(e) => Err(PacketErrorView::Protocol(e)),
                Ok((room_id, _)) => Ok(PacketView::JoinRoom { room_id }),
            }
        } else if id == CONNECTED_TO_ROOM {
            match read_string_spec(rest) {
                Err(e) => Err(PacketErrorView::Protocol(e)),
                Ok((room_id, r)) => match read_i32_spec(r) {
                    Err(e) => Err(PacketErrorView::Protocol(e)),
                    Ok((peer_id, _)) => Ok(PacketView::ConnectedToRoom { room_id, peer_id }),
                },
            }
        } else if id == PEER_JOINED {
            match read_i32_spec(rest) {
                Err(e) => Err(PacketErrorView::Protocol(e)),
                Ok((peer_id, _)) => Ok(PacketView::PeerJoinedRoom { peer_id }),
            }
        } else if id == PEER_LEFT {
            match read_i32_spec(rest) {
                Err(e) => Err(PacketErrorView::Protocol(e)),
                Ok((peer_id, _)) => Ok(PacketView::PeerLeftRoom { peer_id }),
            }
        } else if id == GAME_DATA {
            match read_i32_spec(rest) {
                Err(e) => Err(PacketErrorView::Protocol(e)),
                Ok((from_peer, r)) => Ok(PacketView::GameData { from_peer, data: r }),
            }
        } else if id == FORCE_DISCONNECT {
            Ok(PacketView::ForceDisconnect)
        } else if id == ERROR_PACKET {
            match read_i32_spec(rest) {
                Err(e) => Err(PacketErrorView::Protocol(e)),
                Ok((error_code, r)) => match read_string_spec(r) {
                    Err(e) => Err(PacketErrorView::Protocol(e)),
                    Ok((error_message, _)) => Ok(PacketView::Error { error_code, error_message }),
                },
            }
        } else {
            Err(PacketErrorView::UnknownType(id))
        }
    }
}

pub open spec fn packet_result_view(r: Result<PacketType, PacketError>) -> Result<
    PacketView,
    PacketErrorView,
> {
    match r {
        Ok(p) => Ok(p@),
        Err(e) => Err(e@),
    }
}

/// Every string of the packet fits the `i32` length prefix of its encoding.
pub open spec fn packet_fits(p: PacketView) -> bool {
    match p {
        PacketView::Authenticate { app_id, version } => encode_utf8(app_id).len() <= i32::MAX
            && encode_utf8(version).len() <= i32::MAX,
        PacketView::JoinRoom { room_id } => encode_utf8(room_id).len() <= i32::MAX,
        PacketView::ConnectedToRoom { room_id, .. } => encode_utf8(room_id).len() <= i32::MAX,
        PacketView::Error { error_message, .. } => encode_utf8(error_message).len() <= i32::MAX,
        _ => true,
    }
}

/// Decoding the bytes of a packet gives that packet back, for every packet
/// whose strings fit their `i32` length prefixes.
pub proof fn law_decode_encode(p: PacketView)
    requires
        packet_fits(p),
    ensures
        decode_packet(encode_packet(p)) == Ok::<PacketView, PacketErrorView>(p),
{
    let b = encode_packet(p);
    let rest = b.skip(1);
    let empty = Seq::<u8>::empty();
    match p {
        PacketView::Authenticate { app_id, version } => {
            assert(rest =~= string_wire(app_id) + (string_wire(version) + empty));
            law_read_string_of_push(app_id, string_wire(version) + empty);
            law_read_string_of_push(version, empty);
        },
        PacketView::JoinRoom { room_id } => {
            assert(rest =~= string_wire(room_id) + empty);
            law_read_string_of_push(room_id, empty);
        },
        PacketView::ConnectedToRoom { room_id, peer_id } => {
            assert(rest =~= string_wire(room_id) + (i32_wire(peer_id) + empty));
            law_read_string_of_push(room_id, i32_wire(peer_id) + empty);
            law_read_i32_of_push(peer_id, empty);
        },
        PacketView::PeerJoinedRoom { peer_id } => {
            assert(rest =~= i32_wire(peer_id) + empty);
            law_read_i32_of_push(peer_id, empty);
        },
        PacketView::PeerLeftRoom { peer_id } => {
            assert(rest =~= i32_wire(peer_id) + empty);
            law_read_i32_of_push(peer_id, empty);
        },
        PacketView::GameData { from_peer, data } => {
            assert(rest =~= i32_wire(from_peer) + data);
            law_read_i32_of_push(from_peer, data);
        },
        PacketView::Error { error_code, error_message } => {
            assert(rest =~= i32_wire(error_code) + (string_wire(error_message) + empty));
            law_read_i32_of_push(error_code, string_wire(error_message) + empty);
            law_read_string_of_push(error_message, empty);
        },
        _ => {},
    }
}

/// A decoded packet's encoding is how the decoded bytes begin; only what
/// follows the last field was ignored, and game data ignores nothing.
pub proof fn law_decoded_bytes_begin_with_encoding(b: Seq<u8>)
    ensures
        decode_packet(b) matches Ok(p) ==> {
            &&& encode_packet(p).len() <= b.len()
            &&& b.take(encode_packet(p).len() as int) == encode_packet(p)
            &&& (p is GameData ==> b == encode_packet(p))
        },
{
    if let Ok(p) = decode_packet(b) {
        let tail = lemma_decoded_tail(b);
        assert(b.take(encode_packet(p).len() as int) =~= encode_packet(p));
    }
}

proof fn lemma_decoded_tail(b: Seq<u8>) -> (tail: Seq<u8>)
    requires
        decode_packet(b) is Ok,
    ensures
        b == encode_packet(decode_packet(b)->Ok_0) + tail,
        decode_packet(b)->Ok_0 is GameData ==> tail.len() == 0,
{
    let p = decode_packet(b)->Ok_0;
    let rest = b.skip(1);
    assert(b =~= seq![b[0]] + rest);
    if b[0] == AUTHENTICATE {
        law_read_string_consumes_encoding(rest);
        let r = read_string_spec(rest)->Ok_0.1;
        law_read_string_consumes_encoding(r);
        let r2 = read_string_spec(r)->Ok_0.1;
        assert(b =~= encode_packet(p) + r2);
        r2
    } else if b[0] == JOIN_ROOM {
        law_read_string_consumes_encoding(rest);
        let r = read_string_spec(rest)->Ok_0.1;
        assert(b =~= encode_packet(p) + r);
        r
    } else if b[0] == CONNECTED_TO_ROOM {
        law_read_string_consumes_encoding(rest);
        let r = read_string_spec(rest)->Ok_0.1;
        law_read_i32_consumes_encoding(r);
        let r2 = read_i32_spec(r)->Ok_0.1;
        assert(b =~= encode_packet(p) + r2);
        r2
    } else if b[0] == PEER_JOINED || b[0] == PEER_LEFT {
        law_read_i32_consumes_encoding(rest);
        let r = read_i32_spec(rest)->Ok_0.1;
        assert(b =~= encode_packet(p) + r);
        r
    } else if b[0] == GAME_DATA {
        law_read_i32_consumes_encoding(rest);
        assert(b =~= encode_packet(p) + Seq::<u8>::empty());
        Seq::<u8>::empty()
    } else if b[0] == ERROR_PACKET {
        law_read_i32_consumes_encoding(rest);
        let r = read_i32_spec(rest)->Ok_0.1;
        law_read_string_consumes_encoding(r);
        let r2 = read_string_spec(r)->Ok_0.1;
        assert(b =~= encode_packet(p) + r2);
        r2
    } else {
        assert(b =~= encode_packet(p) + rest);
        rest
    }
}

impl PacketType {
    /// Decodes a packet from its bytes.
    pub fn from_bytes(bytes: &[u8]) -> (r: Result<Self, PacketError>)
        ensures
            packet_result_view(r) == decode_packet(bytes@),
    {
        if bytes.len() == 0 {
            return Err(PacketError::Empty);
        }
        let packet_id = bytes[0];
        let rest = &bytes[1..bytes.len()];
        if packet_id == AUTHENTICATE {
            let (app_id, r) = match read_string(rest) {
                Ok(p) => p,
                Err(e) => return Err(PacketError::Protocol(e)),
            };
            let (version, _) = match read_string(r) {
                Ok(p) => p,
                Err(e) => return Err(PacketError::Protocol(e)),
            };
            Ok(PacketType::Authenticate { app_id, version })
        } else if packet_id == CLIENT_AUTHENTICATED {
            Ok(PacketType::ClientAuthenticated)
        } else if packet_id == CREATE_ROOM {
            Ok(PacketType::CreateRoom)
        } else if packet_id == JOIN_ROOM {
            let (room_id, _) = match read_string(rest) {
                Ok(p) => p,
                Err(e) => return Err(PacketError::Protocol(e)),
            };
            Ok(PacketType::JoinRoom { room_id })
        } else if packet_id == CONNECTED_TO_ROOM {
            let (room_id, r) = match read_string(rest) {
                Ok(p) => p,
                Err(e) => return Err(PacketError::Protocol(e)),
            };
            let (peer_id, _) = match read_i32(r) {
                Ok(p) => p,
                Err(e) => return Err(PacketError::Protocol(e)),
            };
            Ok(PacketType::ConnectedToRoom { room_id, peer_id })
        } else if packet_id == PEER_JOINED {
            let (peer_id, _) = match read_i32(rest) {
                Ok(p) => p,
                Err(e) => return Err(PacketError::Protocol(e)),
            };
            Ok(PacketType::PeerJoinedRoom { peer_id })
        } else if packet_id == PEER_LEFT {
            let (peer_id, _) = match read_i32(rest) {
                Ok(p) => p,
                Err(e) => return Err(PacketError::Protocol(e)),
            };
            Ok(PacketType::PeerLeftRoom { peer_id })
        } else if packet_id == GAME_DATA {
            let (peer_id, r) = match read_i32(rest) {
                Ok(p) => p,
                Err(e) => return Err(PacketError::Protocol(e)),
            };
            Ok(PacketType::GameData { from_peer: peer_id, data: slice_to_vec(r) })
        } else if packet_id == FORCE_DISCONNECT {
            Ok(PacketType::ForceDisconnect)
        } else if packet_id == ERROR_PACKET {
            let (error_code, r) = match read_i32(rest) {
                Ok(p) => p,
                Err(e) => return Err(PacketError::Protocol(e)),
            };
            let (error_message, _) = match read_string(r) {
                Ok(p) => p,
                Err(e) => return Err(PacketError::Protocol(e)),
            };
            Ok(PacketType::Error { error_code, error_message })
        } else {
            Err(PacketError::UnknownType(packet_id))
        }
    }

    /// Encodes the packet into its bytes.
    pub fn to_bytes(&self) -> (r: Vec<u8>)
        ensures
            r@ == encode_packet(self@),
    {
        let mut buf: Vec<u8> = Vec::new();
        match self {
            PacketType::Authenticate { app_id, version } => {
                buf.push(AUTHENTICATE);
                push_string(&mut buf, app_id.as_str());
                push_string(&mut buf, version.as_str());
            },
            PacketType::ClientAuthenticated => {
                buf.push(CLIENT_AUTHENTICATED);
            },
            PacketType::CreateRoom => {
                buf.push(CREATE_ROOM);
            },
            PacketType::JoinRoom { room_id } => {
                buf.push(JOIN_ROOM);
                push_string(&mut buf, room_id.as_str());
            },
            PacketType::ConnectedToRoom { room_id, peer_id } => {
                buf.push(CONNECTED_TO_ROOM);
                push_string(&mut buf, room_id.as_str());
                push_i32(&mut buf, *peer_id);
            },
            PacketType::PeerJoinedRoom { peer_id } => {
                buf.push(PEER_JOINED);
                push_i32(&mut buf, *peer_id);
            },
            PacketType::PeerLeftRoom { peer_id } => {
                buf.push(PEER_LEFT);
                push_i32(&mut buf, *peer_id);
            },
            PacketType::GameData { from_peer, data } => {
                buf.push(GAME_DATA);
                push_i32(&mut buf, *from_peer);
                push_bytes(&mut buf, data.as_slice());
            },
            PacketType::ForceDisconnect => {
                buf.push(FORCE_DISCONNECT);
            },
            PacketType::Error { error_code, error_message } => {
                buf.push(ERROR_PACKET);
                push_i32(&mut buf, *error_code);
                push_string(&mut buf, error_message.as_str());
            },
        }
        proof {
            assert(buf@ =~= encode_packet(self@));
        }
        buf
    }
}

} // verus!
