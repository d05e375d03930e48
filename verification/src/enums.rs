//! The symbolic value sets of the board: sides and piece kinds, plus the few
//! named squares that castling needs.

use vstd::prelude::*;

verus! {

#[derive(Copy, Clone, PartialEq, Eq, Structural, Debug)]
pub enum Colour {
    White,
    Black,
}

impl Colour {
    /// The array slot of this side: white 0, black 1.
    pub open spec fn idx(self) -> int {
        match self {
            Colour::White => 0,
            Colour::Black => 1,
        }
    }

    pub fn index(self) -> (r: usize)
        ensures
            r == self.idx(),
    {
        match self {
            Colour::White => 0,
            Colour::Black => 1,
        }
    }

    /// The opposing side.
    pub open spec fn spec_other(self) -> Colour {
        match self {
            Colour::White => Colour::Black,
            Colour::Black => Colour::White,
        }
    }

    pub fn other(self) -> (r: Colour)
        ensures
            r == self.spec_other(),
    {
        match self {
            Colour::White => Colour::Black,
            Colour::Black => Colour::White,
        }
    }
}

#[derive(Copy, Clone, PartialEq, Eq, Structural, Debug)]
pub enum Piece {
    Knight,
    Bishop,
    Rook,
    Queen,
    Pawn,
    King,
}

impl Piece {
    /// The array slot of this piece kind, in the fixed enumeration order.
    pub open spec fn idx(self) -> int {
        match self {
            Piece::Knight => 0,
            Piece::Bishop => 1,
            Piece::Rook => 2,
            Piece::Queen => 3,
            Piece::Pawn => 4,
            Piece::King => 5,
        }
    }

    pub fn index(self) -> (r: usize)
        ensures
            r == self.idx(),
    {
        match self {
            Piece::Knight => 0,
            Piece::Bishop => 1,
            Piece::Rook => 2,
            Piece::Queen => 3,
            Piece::Pawn => 4,
            Piece::King => 5,
        }
    }
}

/// The piece kinds in the order move generation visits them.
pub open spec fn piece_order() -> Seq<Piece> {
    seq![Piece::Knight, Piece::Bishop, Piece::Rook, Piece::Queen, Piece::Pawn, Piece::King]
}

/// The piece kind at a slot of the enumeration order.
pub fn piece_values() -> (v: [Piece; 6])
    ensures
        v@ == piece_order(),
{
    let v = [Piece::Knight, Piece::Bishop, Piece::Rook, Piece::Queen, Piece::Pawn, Piece::King];
    proof {
        assert(v@ =~= piece_order());
    }
    v
}

/// The "no square" sentinel, one past the last board square.
pub const NULL_SQUARE: u8 = 64;

pub const E1: u8 = 4;

pub const C1: u8 = 2;

pub const G1: u8 = 6;

pub const E8: u8 = 60;

pub const C8: u8 = 58;

pub const G8: u8 = 62;

} // verus!
