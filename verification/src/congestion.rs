//! What is measured of a stream from time to time.

use crate::binary64::Binary64;
use vstd::prelude::*;

verus! {

/// One measurement of the data that waits for the player.
///
/// Its change over time is the difference between what is produced and what
/// the connection takes, which no buffer on the way hides for long.
#[derive(Debug, Clone, Copy, Default)]
pub struct Sample {
    /// How full the queue is, by chunks; only for emergencies.
    pub backlog_ratio: Binary64,
    /// The bytes that wait.
    pub backlog_bytes: u64,
    /// The change of the bytes that wait since the last measurement.
    pub backlog_delta: i64,
    /// The bytes that the player took, per second.
    pub drain_bps: u64,
    /// The bytes that the current ladder should produce, per second.
    pub prod_bps: u64,
    /// Whether anything was taken or waits.
    pub has_active_clients: bool,
}

} // verus!
