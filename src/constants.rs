use vstd::prelude::*;

verus! {

/// Largest number of resting orders that one side of one outcome may hold.
pub const MAX_ORDERBOOK_LENGTH: u32 = 1000;

} // verus!
