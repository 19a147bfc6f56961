//! Startup options.
use vstd::prelude::*;

verus! {

/// The port to listen on and, for a follower, the address of its primary.
pub struct RedisServerOptions {
    pub port: String,
    pub replicaof: Option<String>,
}

} // verus!
