use vstd::prelude::*;

verus! {

/// The protocol identifier handed to the transport. Clients whose identifier
/// differs are dropped silently by the transport, so the versions a relay
/// accepts are configured separately and checked on `Authenticate`.
pub const PROTOCOL_VERSION: u64 = 1;

} // verus!
