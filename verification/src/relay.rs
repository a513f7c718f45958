//! The current relay: its clients and their states, applications and their
//! rooms, the handlers for each kind of request, and the server that routes
//! every event to them.
pub mod ids;
pub mod message;
pub mod clients;
pub mod room;
pub mod rooms;
pub mod apps;
pub mod handlers;
pub mod server;
