//! What the renet transport hands to the renet relay.
use vstd::prelude::*;

verus! {

/// The renet channel a message travels on.
#[derive(Debug, Clone, Copy, PartialEq, Eq, Structural)]
pub enum RenetChannel {
    ReliableOrdered,
    ReliableUnordered,
    Unreliable,
}

/// A message received from a client.
#[derive(Debug, Clone)]
pub struct Packet {
    pub renet_id: u64,
    pub data: Vec<u8>,
    pub channel: RenetChannel,
}

/// What the renet server reports besides messages.
#[derive(Debug, Clone)]
pub enum RenetEvent {
    ClientConnected { client_id: u64 },
    ClientDisconnected { client_id: u64, reason: String },
}

} // verus!
