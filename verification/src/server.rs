//! The process-local handle that the networking layer is built around.
//!
//! Only the configuration lives here; sockets and files are the caller's
//! business.

use vstd::prelude::*;

verus! {

/// Port a server for the index listens on when none is chosen.
pub const DEFAULT_PORT: u16 = 7878;

/// Configuration for a server that owns one index instance.
pub struct Server {
    pub port: u16,
}

impl Server {
    /// A server on the default port.
    pub fn new() -> (r: Server)
        ensures
            r.port == DEFAULT_PORT,
    {
        Server { port: DEFAULT_PORT }
    }
}

} // verus!
