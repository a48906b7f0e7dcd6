//! Tiling enumeration and pair matching over half boards.
//!
//! The library enumerates the tilings of the left half of an N x N
//! board from a precomputed piece library, groups them into buckets
//! keyed by their multiset of piece populations, and scores the board
//! by pairing buckets with complementary keys under a per-piece
//! compatibility relation.

pub mod bits;
pub mod board;
pub mod bucket;
pub mod code;
pub mod compat;
pub mod driver;
pub mod enumerate;
pub mod errors;
pub mod keyed;
pub mod popkey;
pub mod solve;
pub mod sorting;
pub mod types;
