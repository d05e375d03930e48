use magic_bitboards::masks::make_mask_lookup;

#[test]
fn single_square_masks() {
    let ms = make_mask_lookup();
    assert_eq!(ms.sq[0], 1);
    assert_eq!(ms.sq[10], 1u64 << 10);
    assert_eq!(ms.sq[63], 1u64 << 63);
}

#[test]
fn rank_and_file_masks() {
    let ms = make_mask_lookup();
    assert_eq!(ms.rank[0], 0xFF);
    assert_eq!(ms.rank[7], 0xFF00_0000_0000_0000);
    assert_eq!(ms.file[0], 0x0101_0101_0101_0101);
    assert_eq!(ms.file[7], 0x8080_8080_8080_8080);
}

#[test]
fn diagonal_masks() {
    let ms = make_mask_lookup();
    assert_eq!(ms.diag[7], 0x8040_2010_0804_0201);
    assert_eq!(ms.adiag[7], 0x0102_0408_1020_4080);
    // the lone corner diagonals
    assert_eq!(ms.diag[0], 1u64 << 7);
    assert_eq!(ms.diag[14], 1u64 << 56);
    assert_eq!(ms.adiag[0], 1);
    assert_eq!(ms.adiag[14], 1u64 << 63);
}

#[test]
fn relevance_masks_for_a1() {
    let ms = make_mask_lookup();
    assert_eq!(ms.rrel[0], 0x0001_0101_0101_017E);
    assert_eq!(ms.brel[0], 0x0040_2010_0804_0200);
}

#[test]
fn relevance_masks_never_hold_their_square_and_stay_small() {
    let ms = make_mask_lookup();
    for sq in 0..64 {
        assert_eq!(ms.brel[sq] & (1u64 << sq), 0);
        assert_eq!(ms.rrel[sq] & (1u64 << sq), 0);
        assert!(ms.brel[sq].count_ones() <= 10);
        assert!(ms.rrel[sq].count_ones() <= 13);
    }
    // the corner rook mask is the largest one
    assert_eq!(ms.rrel[0].count_ones(), 12);
    assert_eq!(ms.brel[27].count_ones(), 9);
}

#[test]
fn king_and_knight_masks() {
    let ms = make_mask_lookup();
    assert_eq!(ms.king[0], 0x302);
    assert_eq!(ms.king[27], 0x0000_001C_141C_0000);
    assert_eq!(ms.knight[0], 0x20400);
    assert_eq!(ms.knight[27], 0x0000_1422_0022_1400);
}

#[test]
fn pawn_capture_masks() {
    let ms = make_mask_lookup();
    // a white pawn on a2 captures toward b3 only
    assert_eq!(ms.pcapture[0][8], 1u64 << 17);
    // a white pawn on b2 captures toward a3 and c3
    assert_eq!(ms.pcapture[0][9], (1u64 << 16) | (1u64 << 18));
    // a black pawn on b7 captures toward a6 and c6
    assert_eq!(ms.pcapture[1][49], (1u64 << 40) | (1u64 << 42));
    // pawns on the back ranks have no squares ahead
    assert_eq!(ms.pcapture[0][60], 0);
    assert_eq!(ms.pcapture[1][4], 0);
}
