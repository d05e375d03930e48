use magic_bitboards::masks::make_mask_lookup;
use magic_bitboards::positions::{make_move, make_position, move_get_code, move_get_from,
    move_get_to};
use magic_bitboards::tables::Lookup;

const START_FEN: &str = "rnbqkbnr/pppppppp/8/8/8/8/PPPPPPPP/RNBQKBNR w KQkq -";

#[test]
fn starting_position_has_twenty_moves() {
    let ms = make_mask_lookup();
    let t = Lookup::new(&ms).unwrap();
    let p = make_position(START_FEN).unwrap();
    assert!(p.pawn_ranks_ok());
    let moves = p.generate_pseudo_legal(&ms, &t);
    assert_eq!(moves.len(), 20);
    let singles = moves.iter().filter(|&&m| move_get_code(m) == 0).count();
    let doubles = moves.iter().filter(|&&m| move_get_code(m) == 1).count();
    // eight single pushes, eight double pushes, four knight moves; no
    // capture, promotion or castle
    assert_eq!(doubles, 8);
    assert_eq!(singles, 12);
    for &m in &moves {
        assert!(move_get_code(m) <= 1);
    }
}

#[test]
fn lone_rook_stops_at_the_blocker() {
    let ms = make_mask_lookup();
    let t = Lookup::new(&ms).unwrap();
    let p = make_position("8/8/8/8/p7/8/8/R7 w - -").unwrap();
    let moves = p.generate_pseudo_legal(&ms, &t);
    assert_eq!(moves.len(), 10);
    let mut dests: Vec<u8> = moves.iter().map(|&m| move_get_to(m)).collect();
    dests.sort();
    // a2, a3, a4 up the file, b1 through h1 along the rank
    assert_eq!(dests, vec![1, 2, 3, 4, 5, 6, 7, 8, 16, 24]);
    for &m in &moves {
        assert_eq!(move_get_from(m), 0);
    }
}

#[test]
fn pawn_one_step_short_of_the_back_rank_promotes_four_ways() {
    let ms = make_mask_lookup();
    let t = Lookup::new(&ms).unwrap();
    let p = make_position("8/4P3/8/8/8/8/8/8 w - -").unwrap();
    let moves = p.generate_pseudo_legal(&ms, &t);
    assert_eq!(moves.len(), 4);
    let mut codes: Vec<u8> = moves.iter().map(|&m| move_get_code(m)).collect();
    codes.sort();
    assert_eq!(codes, vec![8, 9, 10, 11]);
    for &m in &moves {
        assert_eq!(move_get_from(m), 52);
        assert_eq!(move_get_to(m), 60);
    }
}

#[test]
fn en_passant_capture_is_offered_on_the_target_square() {
    let ms = make_mask_lookup();
    let p = make_position("8/8/8/pP6/8/8/8/8 w - a6").unwrap();
    let moves = p.gen_pawn_moves(33, &ms);
    assert_eq!(moves.len(), 2);
    assert_eq!(moves[0], make_move(33, 41, 0));
    assert_eq!(moves[1], make_move(33, 40, 5));
}

#[test]
fn pawn_pushes_respect_the_blockers() {
    let ms = make_mask_lookup();
    // both squares ahead free: single and double push
    let p = make_position("8/8/8/8/8/8/P7/8 w - -").unwrap();
    let moves = p.gen_pawn_moves(8, &ms);
    assert_eq!(moves, vec![make_move(8, 24, 1), make_move(8, 16, 0)]);
    // the double-push landing square blocked: single push only
    let p = make_position("8/8/8/8/p7/8/P7/8 w - -").unwrap();
    assert_eq!(p.gen_pawn_moves(8, &ms), vec![make_move(8, 16, 0)]);
    // the square directly ahead blocked: nothing
    let p = make_position("8/8/8/8/8/p7/P7/8 w - -").unwrap();
    assert_eq!(p.gen_pawn_moves(8, &ms), vec![]);
}

#[test]
fn black_pawns_move_down_the_board() {
    let ms = make_mask_lookup();
    let t = Lookup::new(&ms).unwrap();
    let p = make_position("8/p7/8/8/8/8/8/8 b - -").unwrap();
    let moves = p.generate_pseudo_legal(&ms, &t);
    assert_eq!(moves, vec![make_move(48, 32, 1), make_move(48, 40, 0)]);
    let p = make_position("8/8/8/8/8/8/p7/8 b - -").unwrap();
    let moves = p.gen_pawn_moves(8, &ms);
    let mut codes: Vec<u8> = moves.iter().map(|&m| move_get_code(m)).collect();
    codes.sort();
    assert_eq!(codes, vec![8, 9, 10, 11]);
    for &m in &moves {
        assert_eq!(move_get_to(m), 0);
    }
}

#[test]
fn pawn_captures_take_only_opposing_pieces() {
    let ms = make_mask_lookup();
    // white pawn on b2; black piece on a3, own piece on c3
    let p = make_position("8/8/8/8/8/p1N5/1P6/8 w - -").unwrap();
    let moves = p.gen_pawn_moves(9, &ms);
    assert_eq!(moves, vec![make_move(9, 25, 1), make_move(9, 17, 0), make_move(9, 16, 4)]);
}

#[test]
fn castling_is_offered_only_with_rights_and_room() {
    let ms = make_mask_lookup();
    let t = Lookup::new(&ms).unwrap();
    // king-side white castle open
    let p = make_position("8/8/8/8/8/8/8/4K2R w K -").unwrap();
    let moves = p.generate_pseudo_legal(&ms, &t);
    assert!(moves.contains(&make_move(4, 6, 2)));
    // queen-side white castle open
    let p = make_position("8/8/8/8/8/8/8/R3K3 w Q -").unwrap();
    let moves = p.generate_pseudo_legal(&ms, &t);
    assert!(moves.contains(&make_move(4, 2, 3)));
    // the right is there but a piece stands in the way
    let p = make_position("8/8/8/8/8/8/8/4KB1R w K -").unwrap();
    let moves = p.generate_pseudo_legal(&ms, &t);
    assert!(!moves.contains(&make_move(4, 6, 2)));
    // the room is there but the right is gone
    let p = make_position("8/8/8/8/8/8/8/4K2R w - -").unwrap();
    let moves = p.generate_pseudo_legal(&ms, &t);
    assert!(!moves.contains(&make_move(4, 6, 2)));
    // black king-side castle
    let p = make_position("4k2r/8/8/8/8/8/8/8 b k -").unwrap();
    let moves = p.generate_pseudo_legal(&ms, &t);
    assert!(moves.contains(&make_move(60, 62, 2)));
}

#[test]
fn knight_moves_come_in_ascending_square_order() {
    let ms = make_mask_lookup();
    let p = make_position("8/8/8/8/8/8/8/N7 w - -").unwrap();
    let moves = p.gen_knight_moves(0, &ms);
    assert_eq!(moves, vec![make_move(0, 10, 0), make_move(0, 17, 0)]);
}

#[test]
fn queen_moves_are_rook_then_bishop_moves() {
    let ms = make_mask_lookup();
    let t = Lookup::new(&ms).unwrap();
    let p = make_position("8/8/8/8/8/8/8/Q7 w - -").unwrap();
    let qm = p.gen_queen_moves(0, &ms, &t);
    let mut rm = p.gen_rook_moves(0, &ms, &t);
    let bm = p.gen_bishop_moves(0, &ms, &t);
    rm.extend(bm);
    assert_eq!(qm, rm);
    assert_eq!(qm.len(), 21);
}

#[test]
fn black_also_has_twenty_moves_at_the_start() {
    let ms = make_mask_lookup();
    let t = Lookup::new(&ms).unwrap();
    let p = make_position("rnbqkbnr/pppppppp/8/8/8/8/PPPPPPPP/RNBQKBNR b KQkq -").unwrap();
    let moves = p.generate_pseudo_legal(&ms, &t);
    assert_eq!(moves.len(), 20);
    let doubles = moves.iter().filter(|&&m| move_get_code(m) == 1).count();
    assert_eq!(doubles, 8);
}

#[test]
fn pawn_rank_check_spots_wrapped_pawns() {
    let p = make_position(START_FEN).unwrap();
    assert!(p.pawn_ranks_ok());
    let p = make_position("P7/8/8/8/8/8/8/8 w - -").unwrap();
    assert!(!p.pawn_ranks_ok());
    let p = make_position("8/8/8/8/8/8/8/p7 b - -").unwrap();
    assert!(!p.pawn_ranks_ok());
}
