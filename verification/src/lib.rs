//! A relay for peer-to-peer game sessions: the wire format of its packets,
//! the reliability layer that sits on top of raw datagrams, the bookkeeping
//! of applications, rooms and peers, and the decisions the relay takes on
//! every event it receives.
pub mod text;
pub mod config;
pub mod protocol;
pub mod packet_type;
pub mod peers;
pub mod transport;
pub mod game;
pub mod room;
pub mod relay;
pub mod udp;
pub mod renet_connection;
pub mod relay_server;
