//! An xor filter over strings: a compact, immutable set representation that
//! answers membership queries with no false negatives.
pub mod counting;
pub mod hashing;
pub mod keys;
pub mod peel;
pub mod reorder;
pub mod xor;
