use vstd::prelude::*;

verus! {

/// Runtime settings of the daemon: where it listens, how many clients it
/// serves at once, and how long one client may take.
#[derive(Debug, Clone)]
pub struct Config {
    pub socket_path: String,
    pub max_concurrent_connections: usize,
    pub timeout_ms: u64,
}

} // verus!
