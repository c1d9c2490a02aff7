//! A generational entity/component store.
//!
//! Entities are lightweight `(slot, generation)` handles granted by a slot
//! allocator. Components are typed values attached to entities through
//! per-key, generation-checked containers. The generation stamp turns use of
//! a destroyed handle from silent data corruption into a detectable,
//! rejectable condition.

pub mod allocator;
pub mod array;
pub mod store;
