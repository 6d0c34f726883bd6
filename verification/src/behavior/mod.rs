//! What the operations of the library do, told from outside.
//!
//! Each law here speaks of calls: what they were handed, what they returned, and what they left
//! behind. It says so in plain arithmetic and in terms of other calls.

pub mod assumed;
pub mod bits;
pub mod blocks;
pub mod code;
pub mod exits;
pub mod halves;
pub mod hashing;
pub mod lifting;
pub mod linking;
pub mod objects;
pub mod profiles;
pub mod queue;
pub mod records;
pub mod region;
pub mod upkeep;
pub mod wire;
