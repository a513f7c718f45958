use vstd::prelude::*;

verus! {

/// How a payload travels: resent until acknowledged and delivered in order,
/// or sent once.
#[derive(Debug, Clone, Copy, PartialEq, Eq, Structural)]
pub enum TransferChannels {
    Reliable,
    Unreliable,
}

/// A payload received from a client.
#[derive(Debug, Clone)]
pub struct Packet {
    pub client_id: u64,
    pub data: Vec<u8>,
    pub channel: TransferChannels,
}

/// What the transport reports to the server.
#[derive(Debug, Clone)]
pub enum ServerEvent {
    ClientConnected { client_id: u64 },
    ClientDisconnected { client_id: u64 },
    PacketReceived { client_id: u64, data: Vec<u8>, channel: TransferChannels },
}

} // verus!
