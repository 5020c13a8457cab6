//! A consistent-hashing ring: a mapping from data keys to a dynamic set of
//! nodes in which membership changes move only a bounded share of the keys.
//!
//! Each physical node occupies several positions on the ring, one per virtual
//! replica; a key belongs to the nearest occupied position clockwise from its
//! own hash, wrapping from the largest position back to the smallest.

pub mod digest;
pub mod label;
pub mod laws;
pub mod ring;

pub use label::vnode_label;
pub use ring::ConsistentHashing;
