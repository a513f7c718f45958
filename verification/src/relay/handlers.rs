//! One handler per concern: authentication, rooms, game data and
//! disconnections, and the replies they all send.
pub mod sender;
pub mod auth;
pub mod room;
pub mod game_data;
pub mod disconnect;
