//! The lifecycle states of a player in the queue.

use vstd::prelude::*;

verus! {

/// In the queue and available for matching.
pub const WAITING: u8 = 0;

/// Claimed by a worker for a match attempt in progress.
pub const CLAIMED: u8 = 1;

/// Placed in a match.
pub const MATCHED: u8 = 2;

/// Removed from the queue by cancellation.
pub const EVICTED: u8 = 3;

} // verus!
