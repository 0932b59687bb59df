//! The client side of the daemon's JSON-RPC socket.
use vstd::prelude::*;

verus! {

/// A client of the daemon, reached through a Unix socket.
#[derive(Debug, Clone)]
pub struct RpcClient {
    pub socket_path: String,
}

impl RpcClient {
    /// A client of the daemon listening at `socket_path`.
    pub fn new(socket_path: &str) -> (r: Self)
        ensures
            r.socket_path@ == socket_path@,
    {
        RpcClient { socket_path: socket_path.to_owned() }
    }
}

} // verus!
