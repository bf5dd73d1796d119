//! Configuration values that the verified logic reads, and the time units.

use vstd::prelude::*;

verus! {

/// Nanoseconds per second. Times are nanoseconds on the daemon's monotonic
/// clock; spans of time are nanoseconds as well.
pub const NANOS_PER_SEC: u128 = 1_000_000_000;

/// The longest span a `Duration` holds, in nanoseconds.
pub const DURATION_MAX_NANOS: u128 = 18_446_744_073_709_551_615_999_999_999;

/// The span of `secs` whole seconds (`Duration::from_secs`).
pub fn span_from_secs(secs: u64) -> (r: u128)
    ensures
        r == secs * NANOS_PER_SEC,
        r <= DURATION_MAX_NANOS,
{
    secs as u128 * NANOS_PER_SEC
}

/// The `[base]` section of the configuration.
#[derive(Clone, Copy, Debug, PartialEq, Eq, Structural)]
pub struct BaseConfig {
    pub debug: i32,
    pub max_num_peers: u64,
    pub peer_timeout_secs: u64,
}

impl BaseConfig {
    /// How long a peer may be silent before it is forgotten.
    pub fn peer_timeout(&self) -> (r: u128)
        ensures
            r == self.peer_timeout_secs * NANOS_PER_SEC,
            r <= DURATION_MAX_NANOS,
    {
        span_from_secs(self.peer_timeout_secs)
    }
}

} // verus!
