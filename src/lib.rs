//! A bounded key-value cache that evicts the least frequently used entry,
//! breaking ties between equally frequent entries by evicting the one that
//! reached its frequency first.
//!
//! Every operation runs in constant time: entries are grouped into one
//! insertion-ordered bucket per access count, and the lowest non-empty count
//! is tracked in a single field.

pub mod bucket;
pub mod cache;

pub use cache::{LFUCache, LfuConsumer, LfuIterator, ValueCounter};
