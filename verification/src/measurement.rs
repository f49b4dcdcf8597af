//! Plain data records handed to the reporting layer: the timing of one
//! cache access.  Persistence (tabular and structured export) lives with
//! the consumer, outside the simulation core.

use vstd::prelude::*;

verus! {

/// One observed access: the address, its cost under the timing model,
/// whether it hit, and the cache timestamp at which it happened.
#[derive(Debug, Clone, Copy, PartialEq, Eq, Structural)]
pub struct AccessTiming {
    pub address: u64,
    pub access_time: u64,
    pub cache_hit: bool,
    pub timestamp: u64,
}

} // verus!
