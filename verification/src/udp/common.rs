use vstd::prelude::*;

verus! {

/// How a payload travels: resent until acknowledged and delivered in order,
/// or sent once.
#[derive(Debug, Clone, Copy, PartialEq, Eq, Structural)]
pub enum TransferChannel {
    Reliable,
    Unreliable,
}

} // verus!
