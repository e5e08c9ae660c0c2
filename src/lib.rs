//! A buddy-system memory allocator engine with verified bookkeeping.
//!
//! The engine manages caller-supplied address ranges, splits them into
//! power-of-two blocks and serves allocation requests from those blocks.
//! Addresses are plain integers: the engine never reads or writes the memory
//! it hands out.

pub mod buddy;
pub mod laws;
pub mod list;

pub use buddy::{Heap, OutOfMemory};
pub use list::List;
