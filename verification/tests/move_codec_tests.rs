use magic_bitboards::positions::{make_move, move_get_code, move_get_from, move_get_to};

#[test]
fn move_packs_fields_exactly() {
    assert_eq!(make_move(12, 28, 1), 4892);
    assert_eq!(make_move(0, 0, 0), 0);
    assert_eq!(make_move(63, 63, 15), 0xFFFF);
    assert_eq!(make_move(4, 6, 2), 6 | (4 << 6) | (2 << 12));
}

#[test]
fn move_fields_round_trip() {
    for &(from, to, code) in
        &[(0u8, 0u8, 0u8), (12, 28, 1), (63, 0, 15), (0, 63, 8), (33, 40, 5), (4, 6, 2)]
    {
        let mv = make_move(from, to, code);
        assert_eq!(move_get_from(mv), from);
        assert_eq!(move_get_to(mv), to);
        assert_eq!(move_get_code(mv), code);
    }
}

#[test]
fn every_flag_code_survives_the_round_trip() {
    for code in 0u8..16 {
        let mv = make_move(10, 50, code);
        assert_eq!(move_get_code(mv), code);
        assert_eq!(move_get_from(mv), 10);
        assert_eq!(move_get_to(mv), 50);
    }
}
