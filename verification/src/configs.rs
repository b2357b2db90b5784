//! Process configuration values and the query parameter shape, as plain
//! data. Loading them from files or requests is the surrounding layer's
//! work; the library only carries the values.

use vstd::prelude::*;

verus! {

/// The path of the source dataset and the address the server binds to.
pub struct ServerConfig {
    pub file_path: String,
    pub binding_address: String,
}

/// Top-level configuration.
pub struct Config {
    pub server: ServerConfig,
}

/// The query parameter of a single-address lookup.
pub struct SingleIpParam {
    pub ip: String,
}

} // verus!
