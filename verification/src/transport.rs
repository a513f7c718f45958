//! The datagram transport: its events and channels, the reliability layer
//! (sequence numbers, acknowledgements, resends, ordered delivery), and the
//! bookkeeping of its client and server ends.
pub mod client;
pub mod common;
pub mod reliability;
pub mod server;
