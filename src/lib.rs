//! Bootstrap memory allocation for early kernel bring-up.
//!
//! [`EarlyAllocator`] manages one contiguous extent from both ends: byte
//! requests bump a cursor upward from the start, page requests bump a cursor
//! downward from the end. [`HashMap`] is a small separately chained map with
//! integer keys.
pub mod early;
pub mod hashmap;

pub use early::{AllocError, AllocModel, EarlyAllocator, MIN_HEAP_SIZE};
pub use hashmap::{HashMap, Iter, Keys, Values, DEFAULT_SEED};
