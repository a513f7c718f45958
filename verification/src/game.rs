//! The game server's state: applications, their rooms,
//! and the peers of each room.
pub mod app;
pub mod room;
pub mod server;
