//! Magic-bitboard move generation for chess.
//!
//! The crate builds, once at startup, the static geometry masks and the
//! per-square "magic" hash tables that answer sliding-piece attack queries in
//! constant time, and then uses them to enumerate pseudo-legal moves from a
//! position held as bitboards.

pub mod aliases;
pub mod attacks;
pub mod bits;
pub mod enums;
pub mod magic;
pub mod masks;
pub mod positions;
pub mod tables;
pub mod utils;
