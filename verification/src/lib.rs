//! A growable vector of bits, packed into 64-bit blocks.
//!
//! Bits are kept in push order: logical position 0 is the first bit ever
//! pushed. Storage grows at the front: the most recently pushed bit is the
//! least significant bit of block 0, and the oldest bits live in the
//! highest-index block, which is the only block that may be partially
//! filled. Every operation (indexing, tail insertion and removal, bulk
//! appends, byte conversion and text rendering) preserves this one layout.

pub mod bitspec;
pub mod bitvec;
pub mod laws;

pub use bitvec::BitVec;
pub use bitvec::BitVecError;
