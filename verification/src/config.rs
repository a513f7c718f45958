//! The relay's configuration and its defaults.
pub mod loader;

use vstd::prelude::*;

verus! {

/// The renet relay's configuration file: one `[server]` table.
#[derive(Debug)]
pub struct Config {
    pub server: ServerConfig,
}

#[derive(Debug)]
pub struct ServerConfig {
    /// Where the server listens.
    pub udp_bind_address: String,
    /// The application ids allowed in; empty allows every id.
    pub app_whitelist: Vec<String>,
}

/// The listening address used when the configuration names none.
pub fn udp_bind_address() -> (r: String)
    ensures
        r@ == "0.0.0.0:8080"@,
{
    "0.0.0.0:8080".to_string()
}

/// The whitelist used when the configuration names none: empty.
pub fn app_whitelist() -> (r: Vec<String>)
    ensures
        r@.len() == 0,
{
    Vec::new()
}

} // verus!
