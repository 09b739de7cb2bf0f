//! A succinct bit vector: stores a sequence of bits near the entropy bound
//! and answers `get`, `rank`, and `select` queries in bounded time.

pub mod bit_array;
pub mod bit_vector;
pub mod codec;
pub mod fid;
pub mod tables;
pub mod word;
