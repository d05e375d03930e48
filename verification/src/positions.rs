//! Positions and pseudo-legal move generation: the packed move encoding, the
//! bitboard position state, the per-piece generators, and parsing a position
//! from its text fields.

use vstd::prelude::*;

use crate::aliases::{Bitboard, Move, Square};
use crate::attacks;
use crate::bits::{bit, group_bits, group_coords, lemma_bit_test, lemma_sq_seq, rk, sq_seq};
use crate::enums::{Colour, Piece, C1, C8, E1, E8, G1, G8, NULL_SQUARE};
use crate::magic;
use crate::masks;
use crate::tables;

verus! {

broadcast use group_bits, group_coords;

// Using from-to based move encoding:
//
//      0    |   0   |    0    |    0    | 000000 | 000000
//  ---------|-------|---------|---------|--------|--------
//  promotion|capture|special 1|special 0|  from  |   to
//
// https://www.chessprogramming.org/Encoding_Moves
pub const FLAG_QUIET_MOVE: u8 = 0;

pub const FLAG_DOUBLE_PAWN_PUSH: u8 = 1;

pub const FLAG_KING_CASTLE: u8 = 2;

pub const FLAG_QUEEN_CASTLE: u8 = 3;

pub const FLAG_CAPTURE: u8 = 4;

pub const FLAG_EP_CAPTURE: u8 = 5;

pub const FLAG_PROMOTE_KNIGHT: u8 = 8;

pub const FLAG_PROMOTE_BISHOP: u8 = 9;

pub const FLAG_PROMOTE_ROOK: u8 = 10;

pub const FLAG_PROMOTE_QUEEN: u8 = 11;

pub const WKING_CASTLE_RIGHTS: u8 = 1;

pub const WQUEEN_CASTLE_RIGHTS: u8 = 2;

pub const BKING_CASTLE_RIGHTS: u8 = 4;

pub const BQUEEN_CASTLE_RIGHTS: u8 = 8;

/// The packed move holding a destination, an origin and a flag code.
pub open spec fn make_move_spec(from: u8, to: u8, code: u8) -> u16 {
    ((to as int) + 64 * (from as int) + 4096 * (code as int)) as u16
}

/// The destination square of a packed move.
pub open spec fn move_to_spec(mov: u16) -> u8 {
    (mov % 64) as u8
}

/// The origin square of a packed move.
pub open spec fn move_from_spec(mov: u16) -> u8 {
    ((mov / 64) % 64) as u8
}

/// The flag code of a packed move.
pub open spec fn move_code_spec(mov: u16) -> u8 {
    (mov / 4096) as u8
}

pub fn move_get_to(mov: Move) -> (r: u8)
    ensures
        r == move_to_spec(mov),
{
    proof {
        assert((mov & 0x3f) == mov % 64) by (bit_vector);
    }
    (mov & 0x3f) as u8
}

pub fn move_get_from(mov: Move) -> (r: u8)
    ensures
        r == move_from_spec(mov),
{
    proof {
        assert(((mov >> 6u16) & 0x3f) == (mov / 64) % 64) by (bit_vector);
    }
    ((mov >> 6u16) & 0x3f) as u8
}

pub fn move_get_code(mov: Move) -> (r: u8)
    ensures
        r == move_code_spec(mov),
{
    proof {
        assert(((mov >> 12u16) & 0xf) == mov / 4096) by (bit_vector);
    }
    ((mov >> 12u16) & 0xf) as u8
}

pub fn make_move(from: Square, to: Square, special: u8) -> (r: Move)
    requires
        from < 64,
        to < 64,
        special < 16,
    ensures
        r == make_move_spec(from, to, special),
{
    proof {
        assert(((to as u16) | ((from as u16) << 6u16) | ((special as u16) << 12u16)) == ((
        to as int) + 64 * (from as int) + 4096 * (special as int)) as u16) by (bit_vector)
            requires
                from < 64 && to < 64 && special < 16,
        ;
    }
    (to as Move) | ((from as Move) << 6u16) | ((special as Move) << 12u16)
}

/// Decoding a packed move recovers the origin, destination and flag exactly.
pub proof fn lemma_move_roundtrip(from: u8, to: u8, code: u8)
    requires
        from < 64,
        to < 64,
        code < 16,
    ensures
        move_to_spec(make_move_spec(from, to, code)) == to,
        move_from_spec(make_move_spec(from, to, code)) == from,
        move_code_spec(make_move_spec(from, to, code)) == code,
{
    let m = make_move_spec(from, to, code);
    assert(m % 64 == to && (m / 64) % 64 == from && m / 4096 == code) by (bit_vector)
        requires
            from < 64 && to < 64 && code < 16 && m == ((to as int) + 64 * (from as int) + 4096 * (
            code as int)) as u16,
    ;
}

/// A chess position: per-side, per-piece bitboards with their derived
/// aggregates, the side to move, the en-passant target and castling rights.
#[derive(Copy, Clone)]
pub struct Position {
    bitboards: [[Bitboard; 6]; 2],
    side_bitboards: [Bitboard; 2],
    all_bitboard: Bitboard,
    side: Colour,
    ep_target: Square,
    // castling rights: qkQK
    castling: u8,
}

impl Position {
    /// The bitboard of one piece kind of one side.
    pub closed spec fn piece_bb(self, c: int, p: int) -> u64 {
        self.bitboards[c][p]
    }

    /// The aggregate bitboard of one side.
    pub closed spec fn side_bb(self, c: int) -> u64 {
        self.side_bitboards[c]
    }

    /// The bitboard of all occupied squares.
    pub closed spec fn all_bb(self) -> u64 {
        self.all_bitboard
    }

    /// The side to move.
    pub closed spec fn turn(self) -> Colour {
        self.side
    }

    /// The en-passant target square, 64 when there is none.
    pub closed spec fn ep(self) -> u8 {
        self.ep_target
    }

    /// The castling-rights bits, `qkQK` from the high bit down.
    pub closed spec fn rights(self) -> u8 {
        self.castling
    }

    /// The bitboard of the side to move.
    pub open spec fn own_bb(self) -> u64 {
        self.side_bb(self.turn().idx())
    }

    /// The derived-value invariant: each side aggregate is the union of its
    /// six piece bitboards, and the all-occupied board the union of the two
    /// aggregates; the en-passant target stays on the board or is the
    /// sentinel.
    pub open spec fn wf(self) -> bool {
        &&& self.side_bb(0) == self.piece_bb(0, 0) | self.piece_bb(0, 1) | self.piece_bb(0, 2)
            | self.piece_bb(0, 3) | self.piece_bb(0, 4) | self.piece_bb(0, 5)
        &&& self.side_bb(1) == self.piece_bb(1, 0) | self.piece_bb(1, 1) | self.piece_bb(1, 2)
            | self.piece_bb(1, 3) | self.piece_bb(1, 4) | self.piece_bb(1, 5)
        &&& self.all_bb() == self.side_bb(0) | self.side_bb(1)
        &&& self.ep() <= NULL_SQUARE
    }
}

/// The squares of a bitboard, in increasing order.
pub fn bb_squares(bb: Bitboard) -> (set: Vec<Square>)
    ensures
        set@ == sq_seq(bb),
{
    let mut set: Vec<Square> = Vec::new();
    let mut i: usize = 0;
    while i < 64
        invariant
            i <= 64,
            set@ == crate::bits::sq_seq_upto(bb, i as int),
        decreases 64 - i,
    {
        if (bb >> (i as u64)) & 1u64 == 1u64 {
            set.push(i as u8);
        }
        i += 1;
    }
    set
}

/// The bitboard whose squares are toggled by the listed squares, each XORed
/// in turn.
pub open spec fn xor_bb(s: Seq<u8>) -> u64
    decreases s.len(),
{
    if s.len() == 0 {
        0u64
    } else {
        xor_bb(s.drop_last()) ^ (1u64 << (s.last() as u64))
    }
}

/// Builds a bitboard by toggling each listed square.
pub fn make_bb(set: Vec<u8>) -> (bb: Bitboard)
    requires
        forall|i: int| 0 <= i < set@.len() ==> set@[i] < 64,
    ensures
        bb == xor_bb(set@),
{
    let mut acc: u64 = 0;
    let mut i: usize = 0;
    while i < set.len()
        invariant
            i <= set@.len(),
            forall|j: int| 0 <= j < set@.len() ==> set@[j] < 64,
            acc == xor_bb(set@.take(i as int)),
        decreases set@.len() - i,
    {
        acc = acc ^ (1u64 << set[i]);
        proof {
            assert(set@.take(i + 1).drop_last() =~= set@.take(i as int));
            assert(set@.take(i + 1).last() == set@[i as int]);
        }
        i += 1;
    }
    proof {
        assert(set@.take(set@.len() as int) =~= set@);
    }
    acc
}

/// The quiet moves from `from` to each square of `targets`, in board order.
pub open spec fn quiet_moves(from: u8, targets: u64) -> Seq<u16> {
    sq_seq(targets).map_values(|t: u8| make_move_spec(from, t, 0))
}

impl Position {
    /// Turns an attack set into moves, keeping only squares not occupied by
    /// the moving side.
    fn gen_from_atk(&self, from: Square, atk: Bitboard) -> (ret: Vec<Move>)
        requires
            from < 64,
        ensures
            ret@ == quiet_moves(from, atk & !self.own_bb()),
    {
        let side = self.side.index();
        let mask = atk & !self.side_bitboards[side];
        let targets = bb_squares(mask);
        let ghost f = |t: u8| make_move_spec(from, t, 0);
        let mut ret: Vec<Move> = Vec::new();
        let mut i: usize = 0;
        proof {
            lemma_sq_seq(mask);
        }
        while i < targets.len()
            invariant
                i <= targets@.len(),
                from < 64,
                targets@ == sq_seq(mask),
                forall|k: int| 0 <= k < targets@.len() ==> #[trigger] targets@[k] < 64,
                f == (|t: u8| make_move_spec(from, t, 0)),
                ret@ == targets@.map_values(f).take(i as int),
            decreases targets@.len() - i,
        {
            ret.push(make_move(from, targets[i], 0));
            proof {
                assert(ret@ =~= targets@.map_values(f).take(i + 1));
            }
            i += 1;
        }
        proof {
            assert(ret@ =~= targets@.map_values(f));
        }
        ret
    }
}

/// The castling moves a position offers: a castle needs its rights bit and
/// the fixed intervening squares unoccupied by either side.
pub open spec fn castle_moves_spec(p: Position) -> Seq<u16> {
    if p.turn() == Colour::White {
        let ks: Seq<u16> = if p.rights() & WKING_CASTLE_RIGHTS != 0 && p.all_bb()
            & 0x0000000000000060u64 == 0 {
            seq![make_move_spec(E1, G1, FLAG_KING_CASTLE)]
        } else {
            Seq::empty()
        };
        let qs: Seq<u16> = if p.rights() & WQUEEN_CASTLE_RIGHTS != 0 && p.all_bb()
            & 0x000000000000000eu64 == 0 {
            seq![make_move_spec(E1, C1, FLAG_QUEEN_CASTLE)]
        } else {
            Seq::empty()
        };
        ks + qs
    } else {
        let ks: Seq<u16> = if p.rights() & BKING_CASTLE_RIGHTS != 0 && p.all_bb()
            & 0x6000000000000000u64 == 0 {
            seq![make_move_spec(E8, G8, FLAG_KING_CASTLE)]
        } else {
            Seq::empty()
        };
        let qs: Seq<u16> = if p.rights() & BQUEEN_CASTLE_RIGHTS != 0 && p.all_bb()
            & 0x0e00000000000000u64 == 0 {
            seq![make_move_spec(E8, C8, FLAG_QUEEN_CASTLE)]
        } else {
            Seq::empty()
        };
        ks + qs
    }
}

/// The king moves of a position: the king attack mask off its own pieces,
/// then any castles on offer.
pub open spec fn king_moves_spec(p: Position, m: &masks::Lookup, from: u8) -> Seq<u16> {
    quiet_moves(from, m.king[from as int] & !p.own_bb()) + castle_moves_spec(p)
}

/// The knight moves of a position: the knight attack mask off its own pieces.
pub open spec fn knight_moves_spec(p: Position, m: &masks::Lookup, from: u8) -> Seq<u16> {
    quiet_moves(from, m.knight[from as int] & !p.own_bb())
}

/// The rook moves of a position: the ray-cast attack set under the full
/// occupancy, off its own pieces.
pub open spec fn rook_moves_spec(p: Position, from: u8) -> Seq<u16> {
    quiet_moves(from, attacks::ratk_bb(p.all_bb(), from as int) & !p.own_bb())
}

/// The bishop moves of a position, as for the rook.
pub open spec fn bishop_moves_spec(p: Position, from: u8) -> Seq<u16> {
    quiet_moves(from, attacks::batk_bb(p.all_bb(), from as int) & !p.own_bb())
}

/// The double pawn push, open only from the side's starting rank with both
/// squares ahead empty.
pub open spec fn pawn_dbl_spec(p: Position, from: u8) -> Seq<u16> {
    if p.turn() == Colour::White {
        if rk(from as int) == 1 && !bit(p.all_bb(), from + 8) && !bit(p.all_bb(), from + 16) {
            seq![make_move_spec(from, (from + 16) as u8, FLAG_DOUBLE_PAWN_PUSH)]
        } else {
            Seq::empty()
        }
    } else {
        if rk(from as int) == 6 && !bit(p.all_bb(), from - 16) && !bit(p.all_bb(), from - 8) {
            seq![make_move_spec(from, (from - 16) as u8, FLAG_DOUBLE_PAWN_PUSH)]
        } else {
            Seq::empty()
        }
    }
}

/// The single pawn push, open when the square ahead is empty.
pub open spec fn pawn_sgl_spec(p: Position, from: u8) -> Seq<u16> {
    if p.turn() == Colour::White {
        if !bit(p.all_bb(), from + 8) {
            seq![make_move_spec(from, (from + 8) as u8, FLAG_QUIET_MOVE)]
        } else {
            Seq::empty()
        }
    } else {
        if !bit(p.all_bb(), from - 8) {
            seq![make_move_spec(from, (from - 8) as u8, FLAG_QUIET_MOVE)]
        } else {
            Seq::empty()
        }
    }
}

/// What one pawn-capture target yields: the en-passant capture on the target
/// square, an ordinary capture on an opposing piece, or nothing.
pub open spec fn pawn_cap_of(p: Position, from: u8, to: u8) -> Seq<u16> {
    if to == p.ep() {
        seq![make_move_spec(from, to, FLAG_EP_CAPTURE)]
    } else if bit(p.side_bb(1 - p.turn().idx()), to as int) {
        seq![make_move_spec(from, to, FLAG_CAPTURE)]
    } else {
        Seq::empty()
    }
}

/// The pawn captures over a list of target squares, in order.
pub open spec fn pawn_caps(p: Position, from: u8, targets: Seq<u8>) -> Seq<u16>
    decreases targets.len(),
{
    if targets.len() == 0 {
        Seq::empty()
    } else {
        pawn_caps(p, from, targets.drop_last()) + pawn_cap_of(p, from, targets.last())
    }
}

/// The four promotion variants of one move, flag ORed in.
pub open spec fn promos_of(mv: u16) -> Seq<u16> {
    seq![
        mv | make_move_spec(0, 0, FLAG_PROMOTE_KNIGHT),
        mv | make_move_spec(0, 0, FLAG_PROMOTE_BISHOP),
        mv | make_move_spec(0, 0, FLAG_PROMOTE_ROOK),
        mv | make_move_spec(0, 0, FLAG_PROMOTE_QUEEN),
    ]
}

/// Every move of the list expanded into its four promotions.
pub open spec fn promote_all(s: Seq<u16>) -> Seq<u16>
    decreases s.len(),
{
    if s.len() == 0 {
        Seq::empty()
    } else {
        promote_all(s.drop_last()) + promos_of(s.last())
    }
}

/// The pawn moves before promotion expansion: double push, single push, then
/// the captures in target order.
pub open spec fn pawn_base_spec(p: Position, m: &masks::Lookup, from: u8) -> Seq<u16> {
    pawn_dbl_spec(p, from) + pawn_sgl_spec(p, from) + pawn_caps(
        p,
        from,
        sq_seq(m.pcapture[p.turn().idx()][from as int]),
    )
}

/// The pawn moves of a position: the base moves, each expanded into four
/// promotions when the pawn stands one step short of the back rank.
pub open spec fn pawn_moves_spec(p: Position, m: &masks::Lookup, from: u8) -> Seq<u16> {
    if (p.turn() == Colour::White && rk(from as int) == 6) || (p.turn() == Colour::Black && rk(
        from as int,
    ) == 1) {
        promote_all(pawn_base_spec(p, m, from))
    } else {
        pawn_base_spec(p, m, from)
    }
}

/// The `0x101` trick: the shifted pair of bits covers exactly the two squares
/// eight apart from `s` upward.
proof fn lemma_dbl_mask(all: u64, s: u64)
    requires
        s <= 47,
    ensures
        (all & (0x101u64 << s) == 0) == (!bit(all, s as int) && !bit(all, s as int + 8)),
{
    assert(s <= 47 ==> ((all & (0x101u64 << s) == 0) == (!((all >> s) & 1u64 == 1u64) && !((all
        >> ((s + 8) as u64)) & 1u64 == 1u64)))) by (bit_vector);
}

impl Position {
    /// King moves: a direct mask lookup, plus castling checked against
    /// occupancy only (path attacks are a legality question, out of scope).
    pub fn gen_king_moves(&self, from: Square, m: &masks::Lookup) -> (ret: Vec<Move>)
        requires
            from < 64,
        ensures
            ret@ == king_moves_spec(*self, m, from),
    {
        let mut ret = self.gen_from_atk(from, m.king[from as usize]);
        let ghost base = ret@;
        match self.side {
            Colour::White => {
                if self.castling & WKING_CASTLE_RIGHTS != 0 && self.all_bitboard
                    & 0x0000000000000060u64 == 0 {
                    ret.push(make_move(E1, G1, FLAG_KING_CASTLE));
                }
                if self.castling & WQUEEN_CASTLE_RIGHTS != 0 && self.all_bitboard
                    & 0x000000000000000eu64 == 0 {
                    ret.push(make_move(E1, C1, FLAG_QUEEN_CASTLE));
                }
            },
            Colour::Black => {
                if self.castling & BKING_CASTLE_RIGHTS != 0 && self.all_bitboard
                    & 0x6000000000000000u64 == 0 {
                    ret.push(make_move(E8, G8, FLAG_KING_CASTLE));
                }
                if self.castling & BQUEEN_CASTLE_RIGHTS != 0 && self.all_bitboard
                    & 0x0e00000000000000u64 == 0 {
                    ret.push(make_move(E8, C8, FLAG_QUEEN_CASTLE));
                }
            },
        }
        proof {
            assert(ret@ =~= base + castle_moves_spec(*self));
        }
        ret
    }

    /// Knight moves: a direct mask lookup.
    pub fn gen_knight_moves(&self, from: Square, m: &masks::Lookup) -> (ret: Vec<Move>)
        requires
            from < 64,
        ensures
            ret@ == knight_moves_spec(*self, m, from),
    {
        self.gen_from_atk(from, m.knight[from as usize])
    }

    /// Rook moves: the current occupancy restricted to the relevance mask is
    /// hashed through the stored magic, and the table yields the exact
    /// ray-cast attack set.
    pub fn gen_rook_moves(&self, from: Square, m: &masks::Lookup, t: &tables::Lookup) -> (ret: Vec<
        Move,
    >)
        requires
            from < 64,
            m.wf(),
            t.wf(m),
        ensures
            ret@ == rook_moves_spec(*self, from),
    {
        let occ = self.all_bitboard & m.rrel[from as usize];
        proof {
            let all = self.all_bitboard;
            let rel = m.rrel[from as int];
            assert(occ & rel == occ) by (bit_vector)
                requires
                    occ == all & rel,
            ;
            assert(magic::transform_spec(t.rmag@[from as int], occ) < t.rmag_tbl@[from as int]@.len());
            attacks::lemma_ratk_rel(self.all_bitboard, m.rrel[from as int], from as int);
        }
        let hash = t.rmag[from as usize].transform(occ);
        proof {
            let sh = t.rmag@[from as int].shift;
            assert(1u64 << ((64 - sh) as u64) <= 8192) by (bit_vector)
                requires
                    51 <= sh < 64,
            ;
            assert(hash <= 8192);
        }
        let atk = t.rmag_tbl[from as usize][hash as usize];
        proof {
            assert(atk == magic::atk_of(occ, from as int, false));
            assert(atk == attacks::ratk_bb(self.all_bb(), from as int));
        }
        self.gen_from_atk(from, atk)
    }

    /// Bishop moves, as for the rook.
    pub fn gen_bishop_moves(&self, from: Square, m: &masks::Lookup, t: &tables::Lookup) -> (ret:
        Vec<Move>)
        requires
            from < 64,
            m.wf(),
            t.wf(m),
        ensures
            ret@ == bishop_moves_spec(*self, from),
    {
        let occ = self.all_bitboard & m.brel[from as usize];
        proof {
            let all = self.all_bitboard;
            let rel = m.brel[from as int];
            assert(occ & rel == occ) by (bit_vector)
                requires
                    occ == all & rel,
            ;
            assert(magic::transform_spec(t.bmag@[from as int], occ) < t.bmag_tbl@[from as int]@.len());
            attacks::lemma_batk_rel(self.all_bitboard, m.brel[from as int], from as int);
        }
        let hash = t.bmag[from as usize].transform(occ);
        proof {
            let sh = t.bmag@[from as int].shift;
            assert(1u64 << ((64 - sh) as u64) <= 8192) by (bit_vector)
                requires
                    51 <= sh < 64,
            ;
            assert(hash <= 8192);
        }
        let atk = t.bmag_tbl[from as usize][hash as usize];
        proof {
            assert(atk == magic::atk_of(occ, from as int, true));
            assert(atk == attacks::batk_bb(self.all_bb(), from as int));
        }
        self.gen_from_atk(from, atk)
    }

    /// Pawn moves: pushes, captures and the en-passant capture, each expanded
    /// into the four promotions from the second-to-last rank.
    pub fn gen_pawn_moves(&self, from: Square, m: &masks::Lookup) -> (ret: Vec<Move>)
        requires
            from < 64,
            self.turn() == Colour::White ==> from < 56,
            self.turn() == Colour::Black ==> from >= 8,
        ensures
            ret@ == pawn_moves_spec(*self, m, from),
    {
        let rk_v = from / 8;
        let all = self.all_bitboard;
        let mut ret: Vec<Move> = Vec::new();

        // move forward two squares; 0x101 covers the two squares ahead
        match self.side {
            Colour::White => {
                if rk_v == 1 && (all & (0x101u64 << ((from + 8) as u64))) == 0 {
                    proof {
                        lemma_dbl_mask(all, (from + 8) as u64);
                    }
                    ret.push(make_move(from, from + 16, FLAG_DOUBLE_PAWN_PUSH));
                } else {
                    proof {
                        if rk_v == 1 {
                            lemma_dbl_mask(all, (from + 8) as u64);
                        }
                    }
                }
            },
            Colour::Black => {
                if rk_v == 6 && (all & (0x101u64 << ((from - 16) as u64))) == 0 {
                    proof {
                        lemma_dbl_mask(all, (from - 16) as u64);
                    }
                    ret.push(make_move(from, from - 16, FLAG_DOUBLE_PAWN_PUSH));
                } else {
                    proof {
                        if rk_v == 6 {
                            lemma_dbl_mask(all, (from - 16) as u64);
                        }
                    }
                }
            },
        }
        proof {
            assert(ret@ =~= pawn_dbl_spec(*self, from));
        }

        // move one square ahead when it is unoccupied
        match self.side {
            Colour::White => {
                proof {
                    lemma_bit_test(all, (from + 8) as u64);
                }
                if all & (1u64 << ((from + 8) as u64)) == 0 {
                    ret.push(make_move(from, from + 8, FLAG_QUIET_MOVE));
                }
            },
            Colour::Black => {
                proof {
                    lemma_bit_test(all, (from - 8) as u64);
                }
                if all & (1u64 << ((from - 8) as u64)) == 0 {
                    ret.push(make_move(from, from - 8, FLAG_QUIET_MOVE));
                }
            },
        }
        proof {
            assert(ret@ =~= pawn_dbl_spec(*self, from) + pawn_sgl_spec(*self, from));
        }

        // captures, including the en-passant target
        let side = self.side.index();
        let cap_mask = if side == 0 {
            m.pcapture[0][from as usize]
        } else {
            m.pcapture[1][from as usize]
        };
        let opp = if side == 0 {
            self.side_bitboards[1]
        } else {
            self.side_bitboards[0]
        };
        let targets = bb_squares(cap_mask);
        proof {
            lemma_sq_seq(cap_mask);
        }
        let ghost base = ret@;
        let mut i: usize = 0;
        while i < targets.len()
            invariant
                i <= targets@.len(),
                from < 64,
                targets@ == sq_seq(cap_mask),
                forall|kk: int| 0 <= kk < targets@.len() ==> #[trigger] targets@[kk] < 64,
                opp == self.side_bb(1 - self.turn().idx()),
                ret@ == base + pawn_caps(*self, from, targets@.take(i as int)),
            decreases targets@.len() - i,
        {
            let to = targets[i];
            proof {
                lemma_bit_test(opp, to as u64);
                assert(targets@.take(i + 1).drop_last() =~= targets@.take(i as int));
                assert(targets@.take(i + 1).last() == targets@[i as int]);
            }
            if to == self.ep_target {
                ret.push(make_move(from, to, FLAG_EP_CAPTURE));
            } else if opp & (1u64 << (to as u64)) != 0 {
                ret.push(make_move(from, to, FLAG_CAPTURE));
            }
            proof {
                assert(ret@ =~= base + pawn_caps(*self, from, targets@.take(i + 1)));
            }
            i += 1;
        }
        proof {
            assert(targets@.take(targets@.len() as int) =~= targets@);
            assert(ret@ == pawn_base_spec(*self, m, from));
        }

        // one step short of the back rank, each move becomes four promotions
        let promote = match self.side {
            Colour::White => rk_v == 6,
            Colour::Black => rk_v == 1,
        };
        if promote {
            let mut out: Vec<Move> = Vec::new();
            let mut j: usize = 0;
            while j < ret.len()
                invariant
                    j <= ret@.len(),
                    out@ == promote_all(ret@.take(j as int)),
                decreases ret@.len() - j,
            {
                let mv = ret[j];
                out.push(mv | make_move(0, 0, FLAG_PROMOTE_KNIGHT));
                out.push(mv | make_move(0, 0, FLAG_PROMOTE_BISHOP));
                out.push(mv | make_move(0, 0, FLAG_PROMOTE_ROOK));
                out.push(mv | make_move(0, 0, FLAG_PROMOTE_QUEEN));
                proof {
                    assert(ret@.take(j + 1).drop_last() =~= ret@.take(j as int));
                    assert(out@ =~= promote_all(ret@.take(j + 1)));
                }
                j += 1;
            }
            proof {
                assert(ret@.take(ret@.len() as int) =~= ret@);
            }
            ret = out;
        }
        ret
    }

    /// No pawn of the side to move stands on its back two wrap-prone ranks:
    /// the square arithmetic of the pawn generators stays on the board.
    pub open spec fn pawns_in_range(self) -> bool {
        forall|i: int|
            #[trigger] bit(self.piece_bb(self.turn().idx(), 4), i) ==> (if self.turn()
                == Colour::White {
                i < 56
            } else {
                i >= 8
            })
    }

    /// Whether the pawn generators may be run on this position; callers that
    /// cannot evaluate the specification test this instead.
    pub fn pawn_ranks_ok(&self) -> (r: bool)
        ensures
            r == self.pawns_in_range(),
    {
        let side = self.side.index();
        let pbb = self.bitboards[side][4];
        let high: u64 = 0xFF00_0000_0000_0000;
        let low: u64 = 0xFF;
        match self.side {
            Colour::White => {
                let ok = pbb & high == 0;
                proof {
                    if ok {
                        assert forall|i: int| #[trigger] bit(pbb, i) implies i < 56 by {
                            if i >= 56 {
                                let j = i as u64;
                                assert((pbb & 0xFF00_0000_0000_0000u64 == 0 && 56 <= j < 64) ==> ((
                                pbb >> j) & 1u64 == 0u64)) by (bit_vector);
                            }
                        }
                    } else {
                        let x = pbb & high;
                        vstd::std_specs::bits::axiom_u64_trailing_zeros(x);
                        let tz = vstd::std_specs::bits::u64_trailing_zeros(x) as int;
                        assert(bit(x, tz));
                        let j = tz as u64;
                        assert(((0xFF00_0000_0000_0000u64 >> j) & 1u64 == 1u64) ==> (56 <= j && j
                            < 64)) by (bit_vector);
                        assert(bit(pbb, tz) && tz >= 56);
                    }
                    assert(pbb == self.piece_bb(self.turn().idx(), 4));
                    assert(ok == self.pawns_in_range());
                }
                ok
            },
            Colour::Black => {
                let ok = pbb & low == 0;
                proof {
                    if ok {
                        assert forall|i: int| #[trigger] bit(pbb, i) implies i >= 8 by {
                            if i < 8 {
                                let j = i as u64;
                                assert((pbb & 0xFFu64 == 0 && j < 8) ==> ((pbb >> j) & 1u64
                                    == 0u64)) by (bit_vector);
                            }
                        }
                    } else {
                        let x = pbb & low;
                        vstd::std_specs::bits::axiom_u64_trailing_zeros(x);
                        let tz = vstd::std_specs::bits::u64_trailing_zeros(x) as int;
                        assert(bit(x, tz));
                        let j = tz as u64;
                        assert(((0xFFu64 >> j) & 1u64 == 1u64) ==> j < 8) by (bit_vector);
                        assert(bit(pbb, tz) && tz < 8);
                    }
                    assert(pbb == self.piece_bb(self.turn().idx(), 4));
                    assert(ok == self.pawns_in_range());
                }
                ok
            },
        }
    }

    /// Queen moves: the union of the rook and bishop moves from the square.
    pub fn gen_queen_moves(&self, from: Square, m: &masks::Lookup, t: &tables::Lookup) -> (ret:
        Vec<Move>)
        requires
            from < 64,
            m.wf(),
            t.wf(m),
        ensures
            ret@ == rook_moves_spec(*self, from) + bishop_moves_spec(*self, from),
    {
        let mut ret = self.gen_rook_moves(from, m, t);
        let mut bmoves = self.gen_bishop_moves(from, m, t);
        ret.append(&mut bmoves);
        ret
    }
}

/// The glyph a square shows: the first piece bitboard holding it, sides in
/// white-black order and pieces in enumeration order, a dot when empty.
pub open spec fn square_repr_spec(p: Position, sq: int) -> char {
    if bit(p.piece_bb(0, 0), sq) {
        '♘'
    } else if bit(p.piece_bb(0, 1), sq) {
        '♗'
    } else if bit(p.piece_bb(0, 2), sq) {
        '♖'
    } else if bit(p.piece_bb(0, 3), sq) {
        '♕'
    } else if bit(p.piece_bb(0, 4), sq) {
        '♙'
    } else if bit(p.piece_bb(0, 5), sq) {
        '♔'
    } else if bit(p.piece_bb(1, 0), sq) {
        '♞'
    } else if bit(p.piece_bb(1, 1), sq) {
        '♝'
    } else if bit(p.piece_bb(1, 2), sq) {
        '♜'
    } else if bit(p.piece_bb(1, 3), sq) {
        '♛'
    } else if bit(p.piece_bb(1, 4), sq) {
        '♟'
    } else if bit(p.piece_bb(1, 5), sq) {
        '♚'
    } else {
        '.'
    }
}

/// The castling-rights letters a position shows, `-` when it has none.
pub open spec fn castling_string_spec(r: u8) -> Seq<char> {
    let s = (if r & 1 != 0 {
        seq!['K']
    } else {
        Seq::empty()
    }) + (if r & 2 != 0 {
        seq!['Q']
    } else {
        Seq::empty()
    }) + (if r & 4 != 0 {
        seq!['k']
    } else {
        Seq::empty()
    }) + (if r & 8 != 0 {
        seq!['q']
    } else {
        Seq::empty()
    });
    if s.len() == 0 {
        seq!['-']
    } else {
        s
    }
}

/// One cell of the board picture: the square's glyph, and a column gap
/// between files.
pub open spec fn pos_cell(p: Position, r: int, f: int) -> Seq<char> {
    seq![square_repr_spec(p, crate::bits::sq_at(r, f))] + (if f != 7 {
        seq![' ']
    } else {
        Seq::<char>::empty()
    })
}

/// The first `f` cells of one rank's row.
pub open spec fn pos_row_upto(p: Position, r: int, f: int) -> Seq<char>
    decreases f,
{
    if f <= 0 {
        Seq::empty()
    } else {
        pos_row_upto(p, r, f - 1) + pos_cell(p, r, f - 1)
    }
}

/// One rank's row: its digit, a space, the cells, a line break.
pub open spec fn pos_row(p: Position, r: int) -> Seq<char> {
    seq![crate::utils::rank_char(r), ' '] + pos_row_upto(p, r, 8) + seq!['\n']
}

/// The first `k` rows of the picture, highest rank first.
pub open spec fn pos_rows_upto(p: Position, k: int) -> Seq<char>
    decreases k,
{
    if k <= 0 {
        Seq::empty()
    } else {
        pos_rows_upto(p, k - 1) + pos_row(p, 8 - k)
    }
}

/// The full text picture of a position: the side to move, its castling
/// rights and en-passant target, then the board, rank 8 at the top.
pub open spec fn pos_string_spec(p: Position) -> Seq<char> {
    seq![
        if p.turn() == Colour::White {
            'w'
        } else {
            'b'
        },
    ] + seq![' ', 'c', 's', ':'] + castling_string_spec(p.rights()) + seq![' ', 'e', 'p', ':']
        + crate::utils::square_string_spec(p.ep()) + seq!['\n'] + pos_rows_upto(p, 8) + seq![
        ' ',
        ' ',
        'A',
        ' ',
        'B',
        ' ',
        'C',
        ' ',
        'D',
        ' ',
        'E',
        ' ',
        'F',
        ' ',
        'G',
        ' ',
        'H',
    ]
}

impl Position {
    /// The glyph a square shows.
    fn square_repr(&self, sq: Square) -> (r: char)
        requires
            sq < 64,
        ensures
            r == square_repr_spec(*self, sq as int),
    {
        let one = 1u64 << (sq as u64);
        proof {
            crate::bits::lemma_bit_test(self.bitboards[0][0], sq as u64);
            crate::bits::lemma_bit_test(self.bitboards[0][1], sq as u64);
            crate::bits::lemma_bit_test(self.bitboards[0][2], sq as u64);
            crate::bits::lemma_bit_test(self.bitboards[0][3], sq as u64);
            crate::bits::lemma_bit_test(self.bitboards[0][4], sq as u64);
            crate::bits::lemma_bit_test(self.bitboards[0][5], sq as u64);
            crate::bits::lemma_bit_test(self.bitboards[1][0], sq as u64);
            crate::bits::lemma_bit_test(self.bitboards[1][1], sq as u64);
            crate::bits::lemma_bit_test(self.bitboards[1][2], sq as u64);
            crate::bits::lemma_bit_test(self.bitboards[1][3], sq as u64);
            crate::bits::lemma_bit_test(self.bitboards[1][4], sq as u64);
            crate::bits::lemma_bit_test(self.bitboards[1][5], sq as u64);
        }
        if self.bitboards[0][0] & one != 0 {
            '♘'
        } else if self.bitboards[0][1] & one != 0 {
            '♗'
        } else if self.bitboards[0][2] & one != 0 {
            '♖'
        } else if self.bitboards[0][3] & one != 0 {
            '♕'
        } else if self.bitboards[0][4] & one != 0 {
            '♙'
        } else if self.bitboards[0][5] & one != 0 {
            '♔'
        } else if self.bitboards[1][0] & one != 0 {
            '♞'
        } else if self.bitboards[1][1] & one != 0 {
            '♝'
        } else if self.bitboards[1][2] & one != 0 {
            '♜'
        } else if self.bitboards[1][3] & one != 0 {
            '♛'
        } else if self.bitboards[1][4] & one != 0 {
            '♟'
        } else if self.bitboards[1][5] & one != 0 {
            '♚'
        } else {
            '.'
        }
    }

    /// The glyph a square shows, as a one-character string.
    fn square_repr_str(&self, sq: Square) -> (r: String)
        requires
            sq < 64,
        ensures
            r@ == seq![square_repr_spec(*self, sq as int)],
    {
        proof {
            reveal_strlit("♘");
            reveal_strlit("♗");
            reveal_strlit("♖");
            reveal_strlit("♕");
            reveal_strlit("♙");
            reveal_strlit("♔");
            reveal_strlit("♞");
            reveal_strlit("♝");
            reveal_strlit("♜");
            reveal_strlit("♛");
            reveal_strlit("♟");
            reveal_strlit("♚");
            reveal_strlit(".");
        }
        let c = self.square_repr(sq);
        let r: &str = match c {
            '♘' => "♘",
            '♗' => "♗",
            '♖' => "♖",
            '♕' => "♕",
            '♙' => "♙",
            '♔' => "♔",
            '♞' => "♞",
            '♝' => "♝",
            '♜' => "♜",
            '♛' => "♛",
            '♟' => "♟",
            '♚' => "♚",
            _ => ".",
        };
        proof {
            assert(r@ =~= seq![square_repr_spec(*self, sq as int)]);
        }
        r.to_owned()
    }

    /// Draws the position: the side to move, castling rights and en-passant
    /// target, then the board, rank 8 at the top.
    pub fn string(&self) -> (ret: String)
        requires
            self.wf(),
        ensures
            ret@ == pos_string_spec(*self),
    {
        let mut ret = match self.side {
            Colour::White => "w".to_owned(),
            Colour::Black => "b".to_owned(),
        };
        ret.append(" cs:");
        proof {
            reveal_strlit("w");
            reveal_strlit("b");
            reveal_strlit(" cs:");
        }

        let mut any = false;
        if self.castling & 1 != 0 {
            ret.append("K");
            any = true;
        }
        if self.castling & 2 != 0 {
            ret.append("Q");
            any = true;
        }
        if self.castling & 4 != 0 {
            ret.append("k");
            any = true;
        }
        if self.castling & 8 != 0 {
            ret.append("q");
            any = true;
        }
        if !any {
            ret.append("-");
        }
        proof {
            reveal_strlit("K");
            reveal_strlit("Q");
            reveal_strlit("k");
            reveal_strlit("q");
            reveal_strlit("-");
            reveal_strlit(" ep:");
            reveal_strlit("\n");
        }
        ret.append(" ep:");
        let eps = crate::utils::square_string(self.ep_target);
        ret.append(eps.as_str());
        ret.append("\n");
        let ghost head = seq![
            if self.turn() == Colour::White {
                'w'
            } else {
                'b'
            },
        ] + seq![' ', 'c', 's', ':'] + castling_string_spec(self.rights()) + seq![' ', 'e', 'p', ':']
            + crate::utils::square_string_spec(self.ep()) + seq!['\n'];
        proof {
            assert(ret@ =~= head);
            assert(pos_rows_upto(*self, 0) =~= Seq::<char>::empty());
        }

        let mut k: usize = 0;
        while k < 8
            invariant
                k <= 8,
                self.wf(),
                ret@ == head + pos_rows_upto(*self, k as int),
            decreases 8 - k,
        {
            let r = 7 - k;
            ret.append(crate::utils::rank_str(r as u8));
            ret.append(" ");
            proof {
                reveal_strlit(" ");
                assert(pos_row_upto(*self, r as int, 0) =~= Seq::<char>::empty());
                assert(ret@ =~= head + pos_rows_upto(*self, k as int) + seq![
                    crate::utils::rank_char(r as int),
                    ' ',
                ]);
            }
            let ghost rowhead = ret@;
            let mut f: usize = 0;
            while f < 8
                invariant
                    f <= 8,
                    k < 8,
                    r == 7 - k,
                    self.wf(),
                    rowhead == head + pos_rows_upto(*self, k as int) + seq![
                        crate::utils::rank_char(r as int),
                        ' ',
                    ],
                    ret@ == rowhead + pos_row_upto(*self, r as int, f as int),
                decreases 8 - f,
            {
                let sq = (8 * r + f) as u8;
                let cell = self.square_repr_str(sq);
                ret.append(cell.as_str());
                if f != 7 {
                    ret.append(" ");
                }
                proof {
                    reveal_strlit(" ");
                    assert(ret@ =~= rowhead + pos_row_upto(*self, r as int, f + 1));
                }
                f += 1;
            }
            ret.append("\n");
            proof {
                reveal_strlit("\n");
                assert(ret@ =~= head + pos_rows_upto(*self, k + 1));
            }
            k += 1;
        }
        ret.append("  A B C D E F G H");
        proof {
            reveal_strlit("  A B C D E F G H");
            assert(ret@ =~= pos_string_spec(*self));
        }
        ret
    }
}

/// The moves of one piece of the side to move, standing on `from`.
pub open spec fn moves_at(p: Position, m: &masks::Lookup, piece: Piece, from: u8) -> Seq<u16> {
    match piece {
        Piece::Knight => knight_moves_spec(p, m, from),
        Piece::Bishop => bishop_moves_spec(p, from),
        Piece::Rook => rook_moves_spec(p, from),
        Piece::Queen => rook_moves_spec(p, from) + bishop_moves_spec(p, from),
        Piece::Pawn => pawn_moves_spec(p, m, from),
        Piece::King => king_moves_spec(p, m, from),
    }
}

/// The moves of one piece kind over a list of origin squares, in order.
pub open spec fn moves_for_squares(p: Position, m: &masks::Lookup, piece: Piece, sqs: Seq<u8>) -> Seq<
    u16,
>
    decreases sqs.len(),
{
    if sqs.len() == 0 {
        Seq::empty()
    } else {
        moves_for_squares(p, m, piece, sqs.drop_last()) + moves_at(p, m, piece, sqs.last())
    }
}

/// The moves of the first `k` piece kinds of the enumeration order, each
/// kind's origins visited in ascending square order.
pub open spec fn moves_for_pieces(p: Position, m: &masks::Lookup, k: int) -> Seq<u16>
    decreases k,
{
    if k <= 0 {
        Seq::empty()
    } else {
        let piece = crate::enums::piece_order()[k - 1];
        moves_for_pieces(p, m, k - 1) + moves_for_squares(
            p,
            m,
            piece,
            sq_seq(p.piece_bb(p.turn().idx(), piece.idx())),
        )
    }
}

/// Every pseudo-legal move of a position: by piece kind in enumeration
/// order, then by origin square ascending, then in the order the per-piece
/// generator emits them.
pub open spec fn all_moves_spec(p: Position, m: &masks::Lookup) -> Seq<u16> {
    moves_for_pieces(p, m, 6)
}

impl Position {
    /// Enumerates every pseudo-legal move of the side to move. Moves that
    /// would leave the mover's king in check are included: legality filtering
    /// is a later pass.
    pub fn generate_pseudo_legal(&self, m: &masks::Lookup, t: &tables::Lookup) -> (moves: Vec<
        Move,
    >)
        requires
            m.wf(),
            t.wf(m),
            self.pawns_in_range(),
        ensures
            moves@ == all_moves_spec(*self, m),
    {
        let pieces = crate::enums::piece_values();
        let side = self.side.index();
        let mut moves: Vec<Move> = Vec::new();

        let mut k: usize = 0;
        while k < 6
            invariant
                m.wf(),
                t.wf(m),
                self.pawns_in_range(),
                side == self.turn().idx(),
                pieces@ == crate::enums::piece_order(),
                k <= 6,
                moves@ == moves_for_pieces(*self, m, k as int),
            decreases 6 - k,
        {
            let piece = pieces[k];
            let piece_bb = self.bitboards[side][piece.index()];
            let sqs = bb_squares(piece_bb);
            proof {
                lemma_sq_seq(piece_bb);
                assert(piece_bb == self.piece_bb(self.turn().idx(), piece.idx()));
            }
            let ghost before = moves@;
            let mut i: usize = 0;
            while i < sqs.len()
                invariant
                    m.wf(),
                    t.wf(m),
                    self.pawns_in_range(),
                    side == self.turn().idx(),
                    i <= sqs@.len(),
                    sqs@ == sq_seq(piece_bb),
                    piece_bb == self.piece_bb(self.turn().idx(), piece.idx()),
                    forall|kk: int|
                        0 <= kk < sqs@.len() ==> #[trigger] sqs@[kk] < 64 && bit(
                            piece_bb,
                            sqs@[kk] as int,
                        ),
                    moves@ == before + moves_for_squares(*self, m, piece, sqs@.take(i as int)),
                decreases sqs@.len() - i,
            {
                let sq = sqs[i];
                proof {
                    if piece == Piece::Pawn {
                        assert(bit(self.piece_bb(self.turn().idx(), 4), sq as int));
                    }
                }
                let mut pos_moves = match piece {
                    Piece::King => self.gen_king_moves(sq, m),
                    Piece::Queen => self.gen_queen_moves(sq, m, t),
                    Piece::Rook => self.gen_rook_moves(sq, m, t),
                    Piece::Bishop => self.gen_bishop_moves(sq, m, t),
                    Piece::Knight => self.gen_knight_moves(sq, m),
                    Piece::Pawn => self.gen_pawn_moves(sq, m),
                };
                moves.append(&mut pos_moves);
                proof {
                    assert(sqs@.take(i + 1).drop_last() =~= sqs@.take(i as int));
                    assert(sqs@.take(i + 1).last() == sqs@[i as int]);
                    assert(moves@ =~= before + moves_for_squares(
                        *self,
                        m,
                        piece,
                        sqs@.take(i + 1),
                    ));
                }
                i += 1;
            }
            proof {
                assert(sqs@.take(sqs@.len() as int) =~= sqs@);
                assert(pieces@[k as int] == crate::enums::piece_order()[k as int]);
                assert(moves@ == moves_for_pieces(*self, m, k + 1));
            }
            k += 1;
        }
        moves
    }
}

/// Splitting a character sequence at a separator: the separator-free pieces,
/// one more than there are separators.
pub open spec fn split_ch(s: Seq<char>, c: char) -> Seq<Seq<char>>
    decreases s.len(),
{
    if s.len() == 0 {
        seq![Seq::<char>::empty()]
    } else if s[0] == c {
        seq![Seq::<char>::empty()] + split_ch(s.drop_first(), c)
    } else {
        let r = split_ch(s.drop_first(), c);
        r.update(0, seq![s[0]] + r[0])
    }
}

pub proof fn lemma_split_ch_len(s: Seq<char>, c: char)
    ensures
        split_ch(s, c).len() >= 1,
    decreases s.len(),
{
    if s.len() > 0 {
        lemma_split_ch_len(s.drop_first(), c);
    }
}

/// The tail of a split, with the piece under way glued onto its front.
spec fn glue(pre: Seq<char>, rest: Seq<Seq<char>>) -> Seq<Seq<char>> {
    seq![pre + rest[0]] + rest.drop_first()
}

/// Splits a string at a separator character.
fn split_str<'a>(s: &'a str, c: char) -> (toks: Vec<&'a str>)
    ensures
        toks@.map_values(|t: &str| t@) == split_ch(s@, c),
{
    let n = s.unicode_len();
    let ghost view = |t: &str| t@;
    let mut toks: Vec<&str> = Vec::new();
    let mut start: usize = 0;
    let mut i: usize = 0;
    proof {
        lemma_split_ch_len(s@, c);
        assert(s@.subrange(0, 0) =~= Seq::<char>::empty());
        assert(s@.skip(0) =~= s@);
    }
    while i < n
        invariant
            start <= i <= n,
            n == s@.len(),
            view == (|t: &str| t@),
            split_ch(s@, c).len() >= 1,
            split_ch(s@.skip(i as int), c).len() >= 1,
            split_ch(s@, c) =~~= toks@.map_values(view) + glue(
                s@.subrange(start as int, i as int),
                split_ch(s@.skip(i as int), c),
            ),
        decreases n - i,
    {
        let ch = s.get_char(i);
        let ghost pre = s@.subrange(start as int, i as int);
        let ghost rest = split_ch(s@.skip(i as int), c);
        proof {
            lemma_split_ch_len(s@.skip(i + 1), c);
            assert(s@.skip(i as int)[0] == ch);
            assert(s@.skip(i as int).drop_first() =~= s@.skip(i + 1));
        }
        if ch == c {
            let tok = s.substring_char(start, i);
            toks.push(tok);
            start = i + 1;
            proof {
                assert(rest =~~= seq![Seq::<char>::empty()] + split_ch(s@.skip(i + 1), c));
                assert(s@.subrange(i + 1, i + 1) =~= Seq::<char>::empty());
                assert(toks@.map_values(view) =~~= toks@.map_values(view).take(
                    toks@.len() - 1,
                ).push(pre));
                assert(split_ch(s@, c) =~~= toks@.map_values(view) + glue(
                    s@.subrange(i + 1, i + 1),
                    split_ch(s@.skip(i + 1), c),
                ));
            }
        } else {
            proof {
                let r = split_ch(s@.skip(i + 1), c);
                assert(rest =~~= r.update(0, seq![ch] + r[0]));
                assert(s@.subrange(start as int, i + 1) =~= pre + seq![ch]);
                assert(glue(pre, rest)[0] =~= (pre + seq![ch]) + r[0]);
                assert(glue(pre, rest) =~~= glue(s@.subrange(start as int, i + 1), r));
            }
        }
        i += 1;
    }
    let tok = s.substring_char(start, n);
    toks.push(tok);
    proof {
        assert(s@.skip(n as int) =~= Seq::<char>::empty());
        assert(toks@.map_values(view) =~~= toks@.map_values(view).take(toks@.len() - 1).push(
            s@.subrange(start as int, n as int),
        ));
        assert(s@.subrange(start as int, n as int) + split_ch(s@.skip(n as int), c)[0] =~= s@
            .subrange(start as int, n as int));
        assert(toks@.map_values(view) =~~= split_ch(s@, c));
    }
    toks
}

/// A placement line scans cleanly: only piece letters and digit runs, and no
/// piece placed beyond the eighth file. `fl` is the file the scan stands on,
/// clamped to eight.
pub open spec fn line_valid(line: Seq<char>, fl: int) -> bool
    decreases line.len(),
{
    if line.len() == 0 {
        true
    } else {
        match crate::utils::cp_of_char(line[0]) {
            Some(cp) => fl <= 7 && line_valid(
                line.drop_first(),
                if fl + 1 <= 8 {
                    fl + 1
                } else {
                    8
                },
            ),
            None => match crate::utils::digit_of(line[0]) {
                Some(d) => line_valid(
                    line.drop_first(),
                    if fl + d <= 8 {
                        fl + d
                    } else {
                        8
                    },
                ),
                None => false,
            },
        }
    }
}

/// The squares one placement line of rank `rk` gives to the piece kind `p`
/// of side `c`, scanning from file `fl`.
pub open spec fn line_bb(line: Seq<char>, fl: int, rk: int, c: int, p: int) -> u64
    decreases line.len(),
{
    if line.len() == 0 {
        0u64
    } else {
        match crate::utils::cp_of_char(line[0]) {
            Some(cp) => {
                let rest = line_bb(
                    line.drop_first(),
                    if fl + 1 <= 8 {
                        fl + 1
                    } else {
                        8
                    },
                    rk,
                    c,
                    p,
                );
                if cp.0.idx() == c && cp.1.idx() == p && 0 <= fl < 8 && 0 <= rk < 8 {
                    (1u64 << (crate::bits::sq_at(rk, fl) as u64)) | rest
                } else {
                    rest
                }
            },
            None => match crate::utils::digit_of(line[0]) {
                Some(d) => line_bb(
                    line.drop_first(),
                    if fl + d <= 8 {
                        fl + d
                    } else {
                        8
                    },
                    rk,
                    c,
                    p,
                ),
                None => 0u64,
            },
        }
    }
}

/// How many ranks the placement lines fill: one per line from the bottom,
/// eight at most, the last line first.
pub open spec fn ranks_of(lines: Seq<Seq<char>>) -> int {
    if lines.len() <= 8 {
        lines.len() as int
    } else {
        8
    }
}

/// The squares the first `k` filled ranks give to piece kind `p` of side `c`.
pub open spec fn placement_upto(lines: Seq<Seq<char>>, k: int, c: int, p: int) -> u64
    decreases k,
{
    if k <= 0 {
        0u64
    } else {
        placement_upto(lines, k - 1, c, p) | line_bb(lines[lines.len() - k], 0, k - 1, c, p)
    }
}

/// The full placement bitboard of piece kind `p` of side `c`.
pub open spec fn placement_bb(lines: Seq<Seq<char>>, c: int, p: int) -> u64 {
    placement_upto(lines, ranks_of(lines), c, p)
}

/// Every filled rank's line scans cleanly.
pub open spec fn placement_ok(lines: Seq<Seq<char>>) -> bool {
    forall|k: int| 0 <= k < ranks_of(lines) ==> line_valid(#[trigger] lines[lines.len() - 1 - k], 0)
}

/// The text fields of a position, split at spaces.
pub open spec fn fen_tokens(s: Seq<char>) -> Seq<Seq<char>> {
    split_ch(s, ' ')
}

pub open spec fn side_token_ok(t: Seq<char>) -> bool {
    t == seq!['w'] || t == seq!['b']
}

pub open spec fn side_of(t: Seq<char>) -> Colour {
    if t == seq!['w'] {
        Colour::White
    } else {
        Colour::Black
    }
}

/// The castling-rights bits a rights token grants; letters other than
/// `K Q k q` are ignored.
pub open spec fn rights_of(t: Seq<char>) -> u8 {
    (if t.contains('K') {
        WKING_CASTLE_RIGHTS
    } else {
        0
    }) | (if t.contains('Q') {
        WQUEEN_CASTLE_RIGHTS
    } else {
        0
    }) | (if t.contains('k') {
        BKING_CASTLE_RIGHTS
    } else {
        0
    }) | (if t.contains('q') {
        BQUEEN_CASTLE_RIGHTS
    } else {
        0
    })
}

/// The en-passant target a token names: an algebraic square read from its
/// first two characters, or the sentinel for anything else.
pub open spec fn ep_of(t: Seq<char>) -> u8 {
    if t.len() >= 2 && 'a' as u32 <= t[0] as u32 <= 'h' as u32 && '1' as u32 <= t[1] as u32 <= '8'
        as u32 {
        (8 * (t[1] as u32 - '1' as u32) + (t[0] as u32 - 'a' as u32)) as u8
    } else {
        NULL_SQUARE
    }
}

/// A position text parses: the placement scans cleanly, and the colour and
/// en-passant fields are present, with a recognized colour.
pub open spec fn fen_ok(s: Seq<char>) -> bool {
    let toks = fen_tokens(s);
    &&& placement_ok(split_ch(toks[0], '/'))
    &&& toks.len() >= 2
    &&& side_token_ok(toks[1])
    &&& toks.len() >= 4
}

/// What refuses a position text: a placement line that does not scan, a
/// missing colour or en-passant field, or an unrecognized colour.
#[derive(Copy, Clone, PartialEq, Eq, Structural, Debug)]
pub enum FenError {
    BadPlacement,
    MissingField,
    BadColour,
}

/// Whether a string holds a character.
fn str_contains(s: &str, c: char) -> (r: bool)
    ensures
        r == s@.contains(c),
{
    let n = s.unicode_len();
    let mut i: usize = 0;
    while i < n
        invariant
            i <= n,
            n == s@.len(),
            forall|j: int| 0 <= j < i ==> s@[j] != c,
        decreases n - i,
    {
        if s.get_char(i) == c {
            return true;
        }
        i += 1;
    }
    false
}

/// Builds a position from its text fields: piece placement, active colour,
/// castling rights and en-passant target, space-separated. A malformed
/// placement or colour and a missing colour or en-passant field are refused;
/// castling rights default to none, as does a malformed en-passant token.
pub fn make_position(fen: &str) -> (ret: Result<Position, FenError>)
    ensures
        fen_ok(fen@) <==> ret is Ok,
        ret matches Ok(p) ==> ({
            let toks = fen_tokens(fen@);
            let lines = split_ch(toks[0], '/');
            &&& p.wf()
            &&& forall|c: int, pc: int|
                0 <= c < 2 && 0 <= pc < 6 ==> #[trigger] p.piece_bb(c, pc) == placement_bb(
                    lines,
                    c,
                    pc,
                )
            &&& p.turn() == side_of(toks[1])
            &&& p.rights() == rights_of(toks[2])
            &&& p.ep() == ep_of(toks[3])
        }),
        ret matches Err(e) ==> ({
            let toks = fen_tokens(fen@);
            let lines = split_ch(toks[0], '/');
            &&& ((e == FenError::BadPlacement) <==> !placement_ok(lines))
            &&& ((e == FenError::MissingField) <==> (placement_ok(lines) && (toks.len() < 2 || (
            side_token_ok(toks[1]) && toks.len() < 4))))
            &&& ((e == FenError::BadColour) <==> (placement_ok(lines) && toks.len() >= 2
                && !side_token_ok(toks[1])))
        }),
{
    let ghost view = |t: &str| t@;
    let toks = split_str(fen, ' ');
    proof {
        lemma_split_ch_len(fen@, ' ');
        assert(toks@.map_values(view)[0] == fen_tokens(fen@)[0]);
    }
    let board = toks[0];
    let lines = split_str(board, '/');
    let ghost lviews = split_ch(fen_tokens(fen@)[0], '/');
    proof {
        assert(lviews == lines@.map_values(view));
        lemma_split_ch_len(board@, '/');
    }

    let mut wbbs: [Bitboard; 6] = [0u64; 6];
    let mut bbbs: [Bitboard; 6] = [0u64; 6];
    let nlines = lines.len();
    let nranks = if nlines < 8 {
        nlines
    } else {
        8
    };
    proof {
        assert(nranks == ranks_of(lviews));
    }

    let mut k: usize = 0;
    while k < nranks
        invariant
            k <= nranks,
            lviews == split_ch(fen_tokens(fen@)[0], '/'),
            nranks == ranks_of(lviews),
            nranks <= 8,
            nlines == lines@.len(),
            lviews == lines@.map_values(view),
            view == (|t: &str| t@),
            forall|pp: int| 0 <= pp < 6 ==> #[trigger] wbbs[pp] == placement_upto(
                lviews,
                k as int,
                0,
                pp,
            ),
            forall|pp: int| 0 <= pp < 6 ==> #[trigger] bbbs[pp] == placement_upto(
                lviews,
                k as int,
                1,
                pp,
            ),
            forall|kk: int|
                0 <= kk < k ==> line_valid(#[trigger] lviews[lviews.len() - 1 - kk], 0),
        decreases nranks - k,
    {
        let line = lines[nlines - 1 - k];
        proof {
            assert(line@ == lviews[lviews.len() - 1 - k]);
        }
        let llen = line.unicode_len();
        let mut fl: usize = 0;
        let mut j: usize = 0;
        let ghost w_start = wbbs;
        let ghost b_start = bbbs;
        proof {
            assert(line@.skip(0) =~= line@);
        }
        while j < llen
            invariant
                j <= llen,
                lviews == split_ch(fen_tokens(fen@)[0], '/'),
                llen == line@.len(),
                fl <= 8,
                k < 8,
                line_valid(line@, 0) == line_valid(line@.skip(j as int), fl as int),
                forall|pp: int|
                    0 <= pp < 6 ==> (#[trigger] wbbs[pp] | line_bb(
                        line@.skip(j as int),
                        fl as int,
                        k as int,
                        0,
                        pp,
                    )) == (w_start[pp] | line_bb(line@, 0, k as int, 0, pp)),
                forall|pp: int|
                    0 <= pp < 6 ==> (#[trigger] bbbs[pp] | line_bb(
                        line@.skip(j as int),
                        fl as int,
                        k as int,
                        1,
                        pp,
                    )) == (b_start[pp] | line_bb(line@, 0, k as int, 1, pp)),
                k < nranks == ranks_of(lviews),
                line@ == lviews[lviews.len() - 1 - k],
            decreases llen - j,
        {
            let ch = line.get_char(j);
            let ghost flg = fl as int;
            proof {
                assert(line@.skip(j as int)[0] == ch);
                assert(line@.skip(j as int).drop_first() =~= line@.skip(j + 1));
            }
            match crate::utils::ascii_colour_piece(ch) {
                Some((colour, piece)) => {
                    if fl > 7 {
                        proof {
                            assert(!line_valid(line@, 0));
                            assert(!placement_ok(lviews));
                        }
                        return Err(FenError::BadPlacement);
                    }
                    let sqv = 8 * k + fl;
                    let pi = piece.index();
                    proof {
                        assert(sqv == crate::bits::sq_at(k as int, flg));
                    }
                    match colour {
                        Colour::White => {
                            wbbs[pi] = wbbs[pi] | (1u64 << (sqv as u64));
                        },
                        Colour::Black => {
                            bbbs[pi] = bbbs[pi] | (1u64 << (sqv as u64));
                        },
                    }
                    proof {
                        broadcast use crate::bits::group_bb_algebra;

                        assert(crate::utils::cp_of_char(ch) == Some((colour, piece)));
                    }
                    fl += 1;
                },
                None => {
                    let v = ch as u32;
                    if v >= 48 && v <= 57 {
                        let d = (v - 48) as usize;
                        fl = fl + d;
                        if fl > 8 {
                            fl = 8;
                        }
                    } else {
                        proof {
                            assert(!line_valid(line@, 0));
                            assert(!placement_ok(lviews));
                        }
                        return Err(FenError::BadPlacement);
                    }
                },
            }
            j += 1;
        }
        proof {
            broadcast use crate::bits::group_bb_algebra;

            assert(line@.skip(llen as int) =~= Seq::<char>::empty());
            assert(line_valid(line@, 0));
            assert forall|pp: int| 0 <= pp < 6 implies wbbs[pp] == placement_upto(
                lviews,
                k + 1,
                0,
                pp,
            ) by {
                assert(wbbs[pp] | line_bb(Seq::<char>::empty(), fl as int, k as int, 0, pp) == (
                w_start[pp] | line_bb(line@, 0, k as int, 0, pp)));
            }
            assert forall|pp: int| 0 <= pp < 6 implies bbbs[pp] == placement_upto(
                lviews,
                k + 1,
                1,
                pp,
            ) by {
                assert(bbbs[pp] | line_bb(Seq::<char>::empty(), fl as int, k as int, 1, pp) == (
                b_start[pp] | line_bb(line@, 0, k as int, 1, pp)));
            }
        }
        k += 1;
    }
    proof {
        assert(placement_ok(lviews));
    }

    if toks.len() < 2 {
        return Err(FenError::MissingField);
    }
    let side_tok = toks[1];
    proof {
        assert(side_tok@ == fen_tokens(fen@)[1]);
    }
    let side: Colour;
    if side_tok.unicode_len() == 1 && side_tok.get_char(0) == 'w' {
        side = Colour::White;
        proof {
            assert(side_tok@ =~= seq!['w']);
        }
    } else if side_tok.unicode_len() == 1 && side_tok.get_char(0) == 'b' {
        side = Colour::Black;
        proof {
            assert(side_tok@ =~= seq!['b']);
            assert(side_tok@ != seq!['w']);
        }
    } else {
        proof {
            assert(side_tok@ != seq!['w'] && side_tok@ != seq!['b']) by {
                if side_tok@.len() == 1 {
                    assert(side_tok@[0] != 'w' && side_tok@[0] != 'b');
                }
            }
        }
        return Err(FenError::BadColour);
    }

    let mut castling: u8 = 0;
    if toks.len() >= 3 {
        let ctok = toks[2];
        proof {
            assert(ctok@ == fen_tokens(fen@)[2]);
        }
        let rk_bit = if str_contains(ctok, 'K') {
            WKING_CASTLE_RIGHTS
        } else {
            0
        };
        let rq_bit = if str_contains(ctok, 'Q') {
            WQUEEN_CASTLE_RIGHTS
        } else {
            0
        };
        let bk_bit = if str_contains(ctok, 'k') {
            BKING_CASTLE_RIGHTS
        } else {
            0
        };
        let bq_bit = if str_contains(ctok, 'q') {
            BQUEEN_CASTLE_RIGHTS
        } else {
            0
        };
        castling = rk_bit | rq_bit | bk_bit | bq_bit;
    }

    if toks.len() < 4 {
        return Err(FenError::MissingField);
    }
    let etok = toks[3];
    proof {
        assert(etok@ == fen_tokens(fen@)[3]);
    }
    let mut ep: u8 = NULL_SQUARE;
    if etok.unicode_len() >= 2 {
        let c0 = etok.get_char(0) as u32;
        let c1 = etok.get_char(1) as u32;
        if c0 >= 97 && c0 <= 104 && c1 >= 49 && c1 <= 56 {
            ep = (8 * (c1 - 49) + (c0 - 97)) as u8;
        }
    }

    let wside = wbbs[0] | wbbs[1] | wbbs[2] | wbbs[3] | wbbs[4] | wbbs[5];
    let bside = bbbs[0] | bbbs[1] | bbbs[2] | bbbs[3] | bbbs[4] | bbbs[5];
    let all = wside | bside;
    let ret = Position {
        bitboards: [wbbs, bbbs],
        side_bitboards: [wside, bside],
        all_bitboard: all,
        side,
        ep_target: ep,
        castling,
    };
    Ok(ret)
}

} // verus!
