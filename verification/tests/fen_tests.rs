use magic_bitboards::enums::{Colour, Piece, NULL_SQUARE};
use magic_bitboards::positions::{bb_squares, make_bb, make_move, make_position, FenError};
use magic_bitboards::utils::{ascii_colour_piece, bb_string, move_string, square_string,
    string_square};

const START_FEN: &str = "rnbqkbnr/pppppppp/8/8/8/8/PPPPPPPP/RNBQKBNR w KQkq -";

#[test]
fn starting_position_parses_and_prints() {
    let p = make_position(START_FEN).unwrap();
    let s = p.string();
    assert!(s.starts_with("w cs:KQkq ep:-\n"));
    assert!(s.ends_with("  A B C D E F G H"));
    let lines: Vec<&str> = s.lines().collect();
    assert_eq!(lines[1], "8 ♜ ♞ ♝ ♛ ♚ ♝ ♞ ♜");
    assert_eq!(lines[2], "7 ♟ ♟ ♟ ♟ ♟ ♟ ♟ ♟");
    assert_eq!(lines[3], "6 . . . . . . . .");
    assert_eq!(lines[7], "2 ♙ ♙ ♙ ♙ ♙ ♙ ♙ ♙");
    assert_eq!(lines[8], "1 ♖ ♘ ♗ ♕ ♔ ♗ ♘ ♖");
}

#[test]
fn lone_king_prints_exactly() {
    let p = make_position("8/8/8/8/8/8/8/7K w - -").unwrap();
    let expected = "w cs:- ep:-\n\
        8 . . . . . . . .\n\
        7 . . . . . . . .\n\
        6 . . . . . . . .\n\
        5 . . . . . . . .\n\
        4 . . . . . . . .\n\
        3 . . . . . . . .\n\
        2 . . . . . . . .\n\
        1 . . . . . . . ♔\n  A B C D E F G H";
    assert_eq!(p.string(), expected);
}

#[test]
fn missing_fields_are_fatal() {
    assert!(matches!(make_position(""), Err(FenError::MissingField)));
    assert!(matches!(make_position("8/8/8/8/8/8/8/8"), Err(FenError::MissingField)));
    assert!(matches!(make_position("8/8/8/8/8/8/8/8 w KQkq"), Err(FenError::MissingField)));
}

#[test]
fn bad_piece_letters_and_colours_are_fatal() {
    assert!(matches!(make_position("T7/8/8/8/8/8/8/8 w - -"), Err(FenError::BadPlacement)));
    assert!(matches!(make_position("9R/8/8/8/8/8/8/8 w - -"), Err(FenError::BadPlacement)));
    assert!(matches!(make_position("8/8/8/8/8/8/8/8 x - -"), Err(FenError::BadColour)));
}

#[test]
fn unknown_castling_letters_are_ignored() {
    let p = make_position("8/8/8/8/8/8/8/4K2R w XK -").unwrap();
    assert!(p.string().starts_with("w cs:K ep:-\n"));
    let p = make_position("8/8/8/8/8/8/8/4K2R w - -").unwrap();
    assert!(p.string().starts_with("w cs:- ep:-\n"));
}

#[test]
fn malformed_en_passant_defaults_to_none() {
    let p = make_position("8/8/8/pP6/8/8/8/8 w - z9").unwrap();
    assert!(p.string().starts_with("w cs:- ep:-\n"));
    let ms = magic_bitboards::masks::make_mask_lookup();
    // with no usable target the capture disappears
    assert_eq!(p.gen_pawn_moves(33, &ms), vec![make_move(33, 41, 0)]);
}

#[test]
fn en_passant_target_is_read_and_printed() {
    let p = make_position("8/8/8/pP6/8/8/8/8 w - a6").unwrap();
    assert!(p.string().starts_with("w cs:- ep:a6\n"));
}

#[test]
fn square_names_round_trip() {
    assert_eq!(square_string(0), "a1");
    assert_eq!(square_string(63), "h8");
    assert_eq!(square_string(20), "e3");
    assert_eq!(square_string(NULL_SQUARE), "-");
    assert_eq!(string_square("a1"), 0);
    assert_eq!(string_square("h8"), 63);
    assert_eq!(string_square("e3"), 20);
    assert_eq!(string_square("-"), NULL_SQUARE);
    for sq in 0..64u8 {
        assert_eq!(string_square(square_string(sq).as_str()), sq);
    }
}

#[test]
fn moves_print_as_origin_then_destination() {
    assert_eq!(move_string(make_move(12, 28, 1)), "e2e4");
    assert_eq!(move_string(make_move(4, 6, 2)), "e1g1");
}

#[test]
fn placement_letters_name_side_and_piece() {
    assert_eq!(ascii_colour_piece('K'), Some((Colour::White, Piece::King)));
    assert_eq!(ascii_colour_piece('q'), Some((Colour::Black, Piece::Queen)));
    assert_eq!(ascii_colour_piece('N'), Some((Colour::White, Piece::Knight)));
    assert_eq!(ascii_colour_piece('p'), Some((Colour::Black, Piece::Pawn)));
    assert_eq!(ascii_colour_piece('x'), None);
    assert_eq!(ascii_colour_piece('3'), None);
}

#[test]
fn bitboard_pictures_are_exact() {
    let expected = "0x0000000000000001\n\
        8 . . . . . . . .\n\
        7 . . . . . . . .\n\
        6 . . . . . . . .\n\
        5 . . . . . . . .\n\
        4 . . . . . . . .\n\
        3 . . . . . . . .\n\
        2 . . . . . . . .\n\
        1 X . . . . . . .\n  A B C D E F G H";
    assert_eq!(bb_string(1), expected);
    assert!(bb_string(0x8000_0000_0000_0000).starts_with("0x8000000000000000\n8 . . . . . . . X\n"));
}

#[test]
fn bitboards_and_square_lists_round_trip() {
    let bb = make_bb(vec![0, 7, 63]);
    assert_eq!(bb, 1 | (1u64 << 7) | (1u64 << 63));
    assert_eq!(bb_squares(bb), vec![0, 7, 63]);
    assert_eq!(bb_squares(0), Vec::<u8>::new());
    assert_eq!(make_bb(vec![]), 0);
    // a repeated square toggles back off
    assert_eq!(make_bb(vec![5, 5]), 0);
}
