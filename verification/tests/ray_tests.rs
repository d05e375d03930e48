use magic_bitboards::attacks::{batk, ratk};

#[test]
fn rook_rays_on_an_empty_board() {
    assert_eq!(ratk(0, 0), 0x0101_0101_0101_01FE);
    assert_eq!(ratk(27, 0), 0x0808_0808_F708_0808);
}

#[test]
fn rook_ray_stops_inclusive_of_the_first_blocker() {
    // a rook on a1 with a blocker on a4 reaches a2, a3, a4 and the whole
    // first rank, nothing beyond a4
    assert_eq!(ratk(0, 1u64 << 24), 0x0000_0000_0101_01FE);
    // a blocker on the rook's ray is reached even when the rest is crowded
    assert_eq!(ratk(0, (1u64 << 24) | (1u64 << 32)), 0x0000_0000_0101_01FE);
    // adjacent blockers on both lines
    assert_eq!(ratk(0, (1u64 << 8) | (1u64 << 1)), (1u64 << 8) | (1u64 << 1));
}

#[test]
fn bishop_rays_on_an_empty_board() {
    assert_eq!(batk(27, 0), 0x8041_2214_0014_2241);
    assert_eq!(batk(0, 0), 0x8040_2010_0804_0200);
}

#[test]
fn bishop_ray_stops_inclusive_of_the_first_blocker() {
    // a bishop on a1 with a blocker on d4 sees b2, c3, d4 only
    assert_eq!(batk(0, 1u64 << 27), (1u64 << 9) | (1u64 << 18) | (1u64 << 27));
}

#[test]
fn occupancy_off_the_rays_changes_nothing() {
    let junk = (1u64 << 17) | (1u64 << 30) | (1u64 << 51);
    assert_eq!(ratk(0, junk), ratk(0, 0));
    assert_eq!(batk(27, (1u64 << 28) | (1u64 << 35)), batk(27, 0));
}
