//! The relay's wire protocol: packet identifiers, the primitive encodings
//! (big-endian integers and length-prefixed UTF-8 strings) and the packets
//! built from them.
pub mod error;
pub mod ids;
pub mod packet;
pub mod serialize;
pub mod version;
