//! A set of non-negative integers, stored as a packed array of 32-bit blocks
//! on top of `bit_vec::BitVec`, with block-wise set algebra and lazy,
//! allocation-free iteration over members in ascending order.
pub mod bits;
pub mod bitset;
pub mod cmp;
pub mod iter;
pub mod laws;
pub mod storage;

pub use bits::blocks_for_bits;
pub use bitset::BitSet;
pub use iter::{BlockIter, BlockSource, Difference, Intersection, Iter, SymmetricDifference, Union};
