//! Subset-sum search over signed integers, built on a growable bit set of atomic words.
//!
//! [`bitvec`] holds the bit set, [`subset`] the mathematics of sub-multisets and their sums,
//! [`engine`] the search, [`progress`] what a caller learns by polling a running search, and
//! [`input`] the reading of entries from text.

pub mod bitvec;
pub mod engine;
pub mod input;
pub mod progress;
pub mod subset;

pub use crate::bitvec::AtomicBitVec;
pub use crate::bitvec::BitArrayIter;
pub use crate::engine::run_algorithm;
pub use crate::progress::AlgorithmProgress;
