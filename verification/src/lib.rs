//! A fixed-capacity bit set ("bitboard"): N boolean flags packed into 64-bit
//! words, with per-bit set/clear/query and whole-set union and difference.
//!
//! The capacity is fixed when a board is constructed; every operation carries
//! a contract over the board's view, a `Seq<bool>` of exactly that length.

pub mod algebra;
pub mod bitset;

pub use bitset::BitboardInternal;
