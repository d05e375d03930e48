//! Small helpers around squares, moves and their text forms.

use vstd::prelude::*;

use crate::enums::{Colour, Piece};

verus! {

/// The side and piece kind a placement letter stands for: `KQRBNP` for
/// white, lowercase for black, anything else refused.
pub open spec fn cp_of_char(c: char) -> Option<(Colour, Piece)> {
    match c {
        'K' => Some((Colour::White, Piece::King)),
        'Q' => Some((Colour::White, Piece::Queen)),
        'R' => Some((Colour::White, Piece::Rook)),
        'B' => Some((Colour::White, Piece::Bishop)),
        'N' => Some((Colour::White, Piece::Knight)),
        'P' => Some((Colour::White, Piece::Pawn)),
        'k' => Some((Colour::Black, Piece::King)),
        'q' => Some((Colour::Black, Piece::Queen)),
        'r' => Some((Colour::Black, Piece::Rook)),
        'b' => Some((Colour::Black, Piece::Bishop)),
        'n' => Some((Colour::Black, Piece::Knight)),
        'p' => Some((Colour::Black, Piece::Pawn)),
        _ => None,
    }
}

/// The value of a decimal digit, for the empty-square runs of a placement
/// line.
pub open spec fn digit_of(c: char) -> Option<int> {
    if '0' as u32 <= c as u32 <= '9' as u32 {
        Some(c as u32 - '0' as u32)
    } else {
        None
    }
}

/// Reads a placement letter as its side and piece kind.
pub fn ascii_colour_piece(c: char) -> (ret: Option<(Colour, Piece)>)
    ensures
        ret == cp_of_char(c),
{
    match c {
        'K' => Some((Colour::White, Piece::King)),
        'Q' => Some((Colour::White, Piece::Queen)),
        'R' => Some((Colour::White, Piece::Rook)),
        'B' => Some((Colour::White, Piece::Bishop)),
        'N' => Some((Colour::White, Piece::Knight)),
        'P' => Some((Colour::White, Piece::Pawn)),
        'k' => Some((Colour::Black, Piece::King)),
        'q' => Some((Colour::Black, Piece::Queen)),
        'r' => Some((Colour::Black, Piece::Rook)),
        'b' => Some((Colour::Black, Piece::Bishop)),
        'n' => Some((Colour::Black, Piece::Knight)),
        'p' => Some((Colour::Black, Piece::Pawn)),
        _ => None,
    }
}

/// The letter of a file.
pub open spec fn file_char(f: int) -> char {
    if f == 0 {
        'a'
    } else if f == 1 {
        'b'
    } else if f == 2 {
        'c'
    } else if f == 3 {
        'd'
    } else if f == 4 {
        'e'
    } else if f == 5 {
        'f'
    } else if f == 6 {
        'g'
    } else {
        'h'
    }
}

/// The digit of a rank.
pub open spec fn rank_char(r: int) -> char {
    if r == 0 {
        '1'
    } else if r == 1 {
        '2'
    } else if r == 2 {
        '3'
    } else if r == 3 {
        '4'
    } else if r == 4 {
        '5'
    } else if r == 5 {
        '6'
    } else if r == 6 {
        '7'
    } else {
        '8'
    }
}

/// The algebraic name of a square, `-` for the sentinel.
pub open spec fn square_string_spec(sq: u8) -> Seq<char> {
    if sq == crate::enums::NULL_SQUARE {
        seq!['-']
    } else {
        seq![file_char(crate::bits::fl(sq as int)), rank_char(crate::bits::rk(sq as int))]
    }
}

/// The file letter as a one-character string.
fn file_str(f: u8) -> (r: &'static str)
    requires
        f < 8,
    ensures
        r@ == seq![file_char(f as int)],
{
    proof {
        reveal_strlit("a");
        reveal_strlit("b");
        reveal_strlit("c");
        reveal_strlit("d");
        reveal_strlit("e");
        reveal_strlit("f");
        reveal_strlit("g");
        reveal_strlit("h");
    }
    let r = match f {
        0 => "a",
        1 => "b",
        2 => "c",
        3 => "d",
        4 => "e",
        5 => "f",
        6 => "g",
        _ => "h",
    };
    proof {
        assert(r@ =~= seq![file_char(f as int)]);
    }
    r
}

/// The rank digit as a one-character string.
pub(crate) fn rank_str(r: u8) -> (ret: &'static str)
    requires
        r < 8,
    ensures
        ret@ == seq![rank_char(r as int)],
{
    proof {
        reveal_strlit("1");
        reveal_strlit("2");
        reveal_strlit("3");
        reveal_strlit("4");
        reveal_strlit("5");
        reveal_strlit("6");
        reveal_strlit("7");
        reveal_strlit("8");
    }
    let ret = match r {
        0 => "1",
        1 => "2",
        2 => "3",
        3 => "4",
        4 => "5",
        5 => "6",
        6 => "7",
        _ => "8",
    };
    proof {
        assert(ret@ =~= seq![rank_char(r as int)]);
    }
    ret
}

/// Writes a square in algebraic notation, `-` for the sentinel.
pub fn square_string(sq: crate::aliases::Square) -> (ret: String)
    requires
        sq <= crate::enums::NULL_SQUARE,
    ensures
        ret@ == square_string_spec(sq),
{
    if sq == crate::enums::NULL_SQUARE {
        let ret = "-".to_owned();
        proof {
            reveal_strlit("-");
            assert(ret@ =~= seq!['-']);
        }
        return ret;
    }
    let mut ret = file_str(sq % 8).to_owned();
    ret.append(rank_str(sq / 8));
    proof {
        assert(ret@ =~= square_string_spec(sq));
    }
    ret
}

/// Writes a move as its origin and destination squares.
pub fn move_string(mv: crate::aliases::Move) -> (ret: String)
    ensures
        ret@ == square_string_spec(crate::positions::move_from_spec(mv)) + square_string_spec(
            crate::positions::move_to_spec(mv),
        ),
{
    let mut ret = square_string(crate::positions::move_get_from(mv));
    let to = square_string(crate::positions::move_get_to(mv));
    ret.append(to.as_str());
    ret
}

/// The square an algebraic name denotes, the sentinel for `-`.
pub open spec fn string_square_spec(s: Seq<char>) -> u8 {
    if s == seq!['-'] {
        crate::enums::NULL_SQUARE
    } else {
        (8 * (s[1] as u32 - '1' as u32) + (s[0] as u32 - 'a' as u32)) as u8
    }
}

/// Reads a square from algebraic notation, the sentinel from `-`.
pub fn string_square(s: &str) -> (ret: crate::aliases::Square)
    requires
        s@ == seq!['-'] || (s@.len() >= 2 && 'a' as u32 <= s@[0] as u32 <= 'h' as u32 && '1' as u32
            <= s@[1] as u32 <= '8' as u32),
    ensures
        ret == string_square_spec(s@),
{
    let n = s.unicode_len();
    if n == 1 {
        proof {
            assert(s@ =~= seq!['-']);
        }
        return crate::enums::NULL_SQUARE;
    }
    proof {
        assert(s@ != seq!['-']);
    }
    let c0 = s.get_char(0) as u32;
    let c1 = s.get_char(1) as u32;
    let fl = (c0 - 97) as u8;
    let rk = (c1 - 49) as u8;
    8 * rk + fl
}

/// The digit of one hex nibble.
pub open spec fn hex_char(v: int) -> char {
    if v == 0 {
        '0'
    } else if v == 1 {
        '1'
    } else if v == 2 {
        '2'
    } else if v == 3 {
        '3'
    } else if v == 4 {
        '4'
    } else if v == 5 {
        '5'
    } else if v == 6 {
        '6'
    } else if v == 7 {
        '7'
    } else if v == 8 {
        '8'
    } else if v == 9 {
        '9'
    } else if v == 10 {
        'a'
    } else if v == 11 {
        'b'
    } else if v == 12 {
        'c'
    } else if v == 13 {
        'd'
    } else if v == 14 {
        'e'
    } else {
        'f'
    }
}

/// The first `i` hex digits of a word, highest nibble first.
pub open spec fn hex_upto(bb: u64, i: int) -> Seq<char>
    decreases i,
{
    if i <= 0 {
        Seq::empty()
    } else {
        hex_upto(bb, i - 1) + seq![hex_char(((bb >> (((16 - i) * 4) as u64)) & 0xf) as int)]
    }
}

/// One board cell of the bitboard picture: `X` or `.`, then the column gap or
/// the line break after the last file.
pub open spec fn bb_cell(bb: u64, r: int, f: int) -> Seq<char> {
    seq![
        if crate::bits::bit(bb, crate::bits::sq_at(r, f)) {
            'X'
        } else {
            '.'
        },
        if f <= 6 {
            ' '
        } else {
            '\n'
        },
    ]
}

/// The first `f` cells of one rank's row.
pub open spec fn bb_row_upto(bb: u64, r: int, f: int) -> Seq<char>
    decreases f,
{
    if f <= 0 {
        Seq::empty()
    } else {
        bb_row_upto(bb, r, f - 1) + bb_cell(bb, r, f - 1)
    }
}

/// One rank's row: its digit, a space, then the eight cells.
pub open spec fn bb_row(bb: u64, r: int) -> Seq<char> {
    seq![rank_char(r), ' '] + bb_row_upto(bb, r, 8)
}

/// The first `k` rows of the picture, highest rank first.
pub open spec fn bb_rows_upto(bb: u64, k: int) -> Seq<char>
    decreases k,
{
    if k <= 0 {
        Seq::empty()
    } else {
        bb_rows_upto(bb, k - 1) + bb_row(bb, 8 - k)
    }
}

/// The file letters under the picture.
pub open spec fn bb_footer() -> Seq<char> {
    seq![' ', ' ', 'A', ' ', 'B', ' ', 'C', ' ', 'D', ' ', 'E', ' ', 'F', ' ', 'G', ' ', 'H']
}

/// The full text picture of a bitboard: its hex value, the board with one
/// `X` per held square, and the file letters.
pub open spec fn bb_string_spec(bb: u64) -> Seq<char> {
    seq!['0', 'x'] + hex_upto(bb, 16) + seq!['\n'] + bb_rows_upto(bb, 8) + bb_footer()
}

/// The hex digit of a nibble value as a one-character string.
fn hex_str(v: u64) -> (ret: &'static str)
    requires
        v < 16,
    ensures
        ret@ == seq![hex_char(v as int)],
{
    proof {
        reveal_strlit("0");
        reveal_strlit("1");
        reveal_strlit("2");
        reveal_strlit("3");
        reveal_strlit("4");
        reveal_strlit("5");
        reveal_strlit("6");
        reveal_strlit("7");
        reveal_strlit("8");
        reveal_strlit("9");
        reveal_strlit("a");
        reveal_strlit("b");
        reveal_strlit("c");
        reveal_strlit("d");
        reveal_strlit("e");
        reveal_strlit("f");
    }
    let ret = match v {
        0 => "0",
        1 => "1",
        2 => "2",
        3 => "3",
        4 => "4",
        5 => "5",
        6 => "6",
        7 => "7",
        8 => "8",
        9 => "9",
        10 => "a",
        11 => "b",
        12 => "c",
        13 => "d",
        14 => "e",
        _ => "f",
    };
    proof {
        assert(ret@ =~= seq![hex_char(v as int)]);
    }
    ret
}

/// Draws a bitboard: its hex value, then the board, rank 8 at the top, with
/// `X` on each held square.
pub fn bb_string(bb: crate::aliases::Bitboard) -> (ret: String)
    ensures
        ret@ == bb_string_spec(bb),
{
    let mut ret = "0x".to_owned();
    proof {
        reveal_strlit("0x");
        assert(ret@ =~= seq!['0', 'x']);
        assert(hex_upto(bb, 0) =~= Seq::<char>::empty());
    }
    let mut i: usize = 0;
    while i < 16
        invariant
            i <= 16,
            ret@ == seq!['0', 'x'] + hex_upto(bb, i as int),
        decreases 16 - i,
    {
        let nib = (bb >> ((60 - 4 * i) as u64)) & 0xf;
        proof {
            let sh = (60 - 4 * i) as u64;
            assert((bb >> sh) & 0xf < 16) by (bit_vector);
        }
        ret.append(hex_str(nib));
        proof {
            assert(ret@ =~= seq!['0', 'x'] + hex_upto(bb, i + 1));
        }
        i += 1;
    }
    ret.append("\n");
    proof {
        reveal_strlit("\n");
        assert(ret@ =~= seq!['0', 'x'] + hex_upto(bb, 16) + seq!['\n']);
        assert(bb_rows_upto(bb, 0) =~= Seq::<char>::empty());
    }
    let ghost head = ret@;

    let mut k: usize = 0;
    while k < 8
        invariant
            k <= 8,
            head == seq!['0', 'x'] + hex_upto(bb, 16) + seq!['\n'],
            ret@ == head + bb_rows_upto(bb, k as int),
        decreases 8 - k,
    {
        let r = 7 - k;
        ret.append(rank_str(r as u8));
        ret.append(" ");
        proof {
            reveal_strlit(" ");
            assert(bb_row_upto(bb, r as int, 0) =~= Seq::<char>::empty());
            assert(ret@ =~= head + bb_rows_upto(bb, k as int) + seq![rank_char(r as int), ' ']);
        }
        let ghost rowhead = ret@;
        let mut f: usize = 0;
        while f < 8
            invariant
                f <= 8,
                k < 8,
                r == 7 - k,
                rowhead == head + bb_rows_upto(bb, k as int) + seq![rank_char(r as int), ' '],
                ret@ == rowhead + bb_row_upto(bb, r as int, f as int),
            decreases 8 - f,
        {
            let sq = 8 * r + f;
            proof {
                crate::bits::lemma_bit_test(bb, sq as u64);
            }
            if bb & (1u64 << (sq as u64)) != 0 {
                ret.append("X");
            } else {
                ret.append(".");
            }
            if f <= 6 {
                ret.append(" ");
            } else {
                ret.append("\n");
            }
            proof {
                reveal_strlit("X");
                reveal_strlit(".");
                reveal_strlit(" ");
                reveal_strlit("\n");
                assert(ret@ =~= rowhead + bb_row_upto(bb, r as int, f + 1));
            }
            f += 1;
        }
        proof {
            assert(ret@ =~= head + bb_rows_upto(bb, k + 1));
        }
        k += 1;
    }
    ret.append("  A B C D E F G H");
    proof {
        reveal_strlit("  A B C D E F G H");
        assert(ret@ =~= bb_string_spec(bb));
    }
    ret
}

} // verus!
