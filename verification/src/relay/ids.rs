use vstd::prelude::*;

verus! {

/// The relay's identifier of an application, handed out in increasing
/// order as applications first authenticate.
pub type AppId = u64;

/// The relay's identifier of a room within an application.
pub type RoomId = u64;

} // verus!
