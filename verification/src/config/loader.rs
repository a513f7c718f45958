//! The current configuration, read from `config.toml` or from the
//! environment, and the defaults of its fields.
use vstd::prelude::*;

verus! {

/// What to do when the remote whitelist cannot be consulted.
#[derive(Debug, Clone, Copy, PartialEq, Eq, Structural)]
pub enum WhitelistFailurePolicy {
    /// Reject the connecting client: the safer default for a whitelist that
    /// exists to keep unknown applications off the relay.
    FailClosed,
    /// Fall back to the local whitelist, for when availability matters more
    /// than strict enforcement of the remote list.
    FailOpenToLocal,
}

impl Default for WhitelistFailurePolicy {
    fn default() -> (r: Self)
        ensures
            r == WhitelistFailurePolicy::FailClosed,
    {
        WhitelistFailurePolicy::FailClosed
    }
}

#[derive(Debug)]
pub struct Config {
    pub udp_bind_address: String,
    /// Local application ids allowed in; empty allows every id.
    pub whitelist: Vec<String>,
    /// Client protocol versions allowed in.
    pub allowed_versions: Vec<String>,
    /// Endpoint of the remote whitelist; empty when there is none.
    pub remote_whitelist_endpoint: String,
    /// Token sent to the remote whitelist.
    pub remote_whitelist_token: String,
    pub whitelist_failure_policy: WhitelistFailurePolicy,
    /// Prefix of the room ids this relay hands out.
    pub relay_id: String,
}

/// The listening address used when the configuration names none.
pub fn udp_bind_address() -> (r: String)
    ensures
        r@ == "0.0.0.0:8080"@,
{
    "0.0.0.0:8080".to_string()
}

/// The local whitelist used when the configuration names none: empty.
pub fn whitelist() -> (r: Vec<String>)
    ensures
        r@.len() == 0,
{
    Vec::new()
}

/// The allowed versions used when the configuration names none: none.
pub fn allowed_versions() -> (r: Vec<String>)
    ensures
        r@.len() == 0,
{
    Vec::new()
}

/// The empty text, the default of the remote whitelist settings and of the
/// relay id.
pub fn empty_string() -> (r: String)
    ensures
        r@ == Seq::<char>::empty(),
{
    String::new()
}

} // verus!
