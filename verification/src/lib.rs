//! Bootstrap memory bookkeeping for the earliest phase of startup.
//!
//! [`EarlyAllocator`] carves one contiguous address range from both ends:
//! byte allocations grow upward from the low address, page allocations grow
//! downward from the high address. [`hashmap::HashMap`] is a small chained map
//! with a fixed number of buckets.

pub mod early;
pub mod hashmap;

pub use early::{AllocError, EarlyAllocator};
