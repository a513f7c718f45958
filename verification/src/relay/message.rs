//! The messages clients and the relay exchange.
use vstd::prelude::*;
use crate::peers::ClientId;

verus! {

/// A public room as listed to clients.
#[derive(Debug, Clone)]
pub struct RoomInfo {
    pub join_code: String,
    pub metadata: String,
    pub players: i32,
}

pub struct RoomInfoView {
    pub join_code: Seq<char>,
    pub metadata: Seq<char>,
    pub players: i32,
}

impl View for RoomInfo {
    type V = RoomInfoView;

    open spec fn view(&self) -> RoomInfoView {
        RoomInfoView { join_code: self.join_code@, metadata: self.metadata@, players: self.players }
    }
}

/// A message between a client and the relay.
#[derive(Debug, Clone)]
pub enum Packet {
    /// Client: authenticate with an application token and protocol version.
    Authenticate { app_id: String, version: String },
    /// Relay: the client is authenticated.
    ClientAuthenticated,
    /// Client: create a room and host it.
    CreateRoom { is_public: bool, metadata: String },
    /// Client: ask the host of the room with join code `room_id` to let it in.
    ReqJoin { room_id: String, metadata: String },
    /// Client: list the application's public rooms.
    ReqRooms,
    /// Relay: the application's public rooms.
    GetRooms { rooms: Vec<RoomInfo> },
    /// Host: replace the room's metadata.
    UpdateRoom { room_id: String, metadata: String },
    /// Relay to a host: `target_id` asks to join.
    PeerJoinAttempt { target_id: ClientId, metadata: String },
    /// Host: whether `target_id` may join.
    JoinRes { target_id: ClientId, room_id: String, allowed: bool },
    /// Relay: the client is in the room with join code `room_id` as `peer_id`.
    ConnectedToRoom { room_id: String, peer_id: i32 },
    /// Relay: a peer joined the room.
    PeerJoinedRoom { peer_id: i32 },
    /// Relay: a peer left the room.
    PeerLeftRoom { peer_id: i32 },
    /// Game data for (from a client) or from (to a client) a peer.
    GameData { from_peer: i32, data: Vec<u8> },
    /// Relay: the client must disconnect.
    ForceDisconnect,
    /// Relay: a request failed.
    Error { error_code: i32, error_message: String },
}

pub enum PacketView {
    Authenticate { app_id: Seq<char>, version: Seq<char> },
    ClientAuthenticated,
    CreateRoom { is_public: bool, metadata: Seq<char> },
    ReqJoin { room_id: Seq<char>, metadata: Seq<char> },
    ReqRooms,
    GetRooms { rooms: Seq<RoomInfoView> },
    UpdateRoom { room_id: Seq<char>, metadata: Seq<char> },
    PeerJoinAttempt { target_id: ClientId, metadata: Seq<char> },
    JoinRes { target_id: ClientId, room_id: Seq<char>, allowed: bool },
    ConnectedToRoom { room_id: Seq<char>, peer_id: i32 },
    PeerJoinedRoom { peer_id: i32 },
    PeerLeftRoom { peer_id: i32 },
    GameData { from_peer: i32, data: Seq<u8> },
    ForceDisconnect,
    Error { error_code: i32, error_message: Seq<char> },
}

impl View for Packet {
    type V = PacketView;

    open spec fn view(&self) -> PacketView {
        match self {
            Packet::Authenticate { app_id, version } => PacketView::Authenticate {
                app_id: app_id@,
                version: version@,
            },
            Packet::ClientAuthenticated => PacketView::ClientAuthenticated,
            Packet::CreateRoom { is_public, metadata } => PacketView::CreateRoom {
                is_public: *is_public,
                metadata: metadata@,
            },
            Packet::ReqJoin { room_id, metadata } => PacketView::ReqJoin {
                room_id: room_id@,
                metadata: metadata@,
            },
            Packet::ReqRooms => PacketView::ReqRooms,
            Packet::GetRooms { rooms } => PacketView::GetRooms {
                rooms: rooms@.map_values(|r: RoomInfo| r@),
            },
            Packet::UpdateRoom { room_id, metadata } => PacketView::UpdateRoom {
                room_id: room_id@,
                metadata: metadata@,
            },
            Packet::PeerJoinAttempt { target_id, metadata } => PacketView::PeerJoinAttempt {
                target_id: *target_id,
                metadata: metadata@,
            },
            Packet::JoinRes { target_id, room_id, allowed } => PacketView::JoinRes {
                target_id: *target_id,
                room_id: room_id@,
                allowed: *allowed,
            },
            Packet::ConnectedToRoom { room_id, peer_id } => PacketView::ConnectedToRoom {
                room_id: room_id@,
                peer_id: *peer_id,
            },
            Packet::PeerJoinedRoom { peer_id } => PacketView::PeerJoinedRoom { peer_id: *peer_id },
            Packet::PeerLeftRoom { peer_id } => PacketView::PeerLeftRoom { peer_id: *peer_id },
            Packet::GameData { from_peer, data } => PacketView::GameData {
                from_peer: *from_peer,
                data: data@,
            },
            Packet::ForceDisconnect => PacketView::ForceDisconnect,
            Packet::Error { error_code, error_message } => PacketView::Error {
                error_code: *error_code,
                error_message: error_message@,
            },
        }
    }
}

} // verus!
