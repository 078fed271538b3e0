//! A double-ended queue backed by a mirrored ring buffer.
//!
//! The deque keeps its live elements in one contiguous window of a buffer
//! whose two halves alias the same storage, so the window never needs to
//! wrap: whenever it would run off one end, shifting both indices by the
//! capacity relocates the window into the other mirrored half without
//! moving any element.

pub mod allocator;
pub mod buffer;
pub mod bytes;
pub mod deque;
pub mod macros;
pub mod policy;

pub use allocator::allocation_granularity;
pub use buffer::Buffer;
pub use deque::{Drain, SliceDeque};
