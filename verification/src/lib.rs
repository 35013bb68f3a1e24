//! An in-memory key-value server core: a length-prefixed binary protocol,
//! a chained hash table with progressive resizing, and a per-connection
//! state machine, all with verified contracts.

use vstd::prelude::*;

pub mod client;
pub mod codec;
pub mod conn;
pub mod hashtable;
pub mod resp;
pub mod server;

verus! {

/// Largest payload (in bytes) of a single protocol frame.
pub const K_MAX_MSG: usize = 4096;

/// Largest number of argument strings in a single request.
pub const K_MAX_ARGS: usize = 1024;

} // verus!
