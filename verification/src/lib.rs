//! A broadcast relay core: fixed-size text frames, the per-connection reader
//! protocol, the shared message queue, the connection registry and the
//! fan-out cycle, each with a machine-checked contract.

pub mod broadcast;
pub mod delivery;
pub mod frame;
pub mod queue;
pub mod reader;
pub mod registry;

use vstd::prelude::*;

verus! {

/// Milliseconds to pause between two broadcast cycles, and before a read is
/// tried again on a connection that had nothing to read.
pub const POLL_INTERVAL_MS: u64 = 120;

} // verus!
