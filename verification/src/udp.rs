//! The datagram transport of the current relay: the channels a payload can
//! travel on, and the sessions of the endpoints it hears from.
pub mod common;
pub mod sessions;
