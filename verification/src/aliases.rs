use vstd::prelude::*;

verus! {

/// A set of board squares, one bit per square, little-endian rank-major:
/// bit index = 8 * rank + file.
pub type Bitboard = u64;

/// A square index in [0, 64); 64 serves as the "no square" sentinel where one
/// is needed (the en-passant target).
pub type Square = u8;

/// A packed move: bits 0-5 the destination, bits 6-11 the origin,
/// bits 12-15 a move-kind flag.
pub type Move = u16;

} // verus!
