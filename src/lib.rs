//! Maps and slices that own their storage either by exclusive borrow of a
//! caller's buffer or by holding a heap-allocated container. The borrowed map
//! is a key-sorted array of optional key/value slots that never allocates.
pub mod laws;
pub mod map;
pub mod order;
pub mod slice;
pub mod slots;

pub use map::ManagedMap;
pub use slice::ManagedSlice;
