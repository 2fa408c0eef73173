//! A buddy allocator over a fixed region of `2^num` elements, whose state is a
//! per-level bitmap kept in a `bitvec` bit-vector.
pub mod bits;
pub mod model;
pub mod laws;
pub mod tree;

pub use tree::RawBuddies;
