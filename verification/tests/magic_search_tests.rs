use magic_bitboards::attacks::{batk, ratk};
use magic_bitboards::magic::{find_bmag, find_rmag, Prng};
use magic_bitboards::masks::make_mask_lookup;
use magic_bitboards::tables::Lookup;

#[test]
fn carry_rippler_visits_every_subset_once() {
    let mask: u64 = 0b10110;
    let mut seen: Vec<u64> = Vec::new();
    let mut bits: u64 = 0;
    loop {
        seen.push(bits);
        bits = bits.wrapping_sub(mask) & mask;
        if bits == 0 {
            break;
        }
    }
    // a mask of three bits has exactly eight subsets, the empty one included
    assert_eq!(seen.len(), 8);
    assert!(seen.contains(&0));
    assert!(seen.contains(&mask));
    for s in &seen {
        assert_eq!(s & mask, *s);
    }
    for i in 0..seen.len() {
        for j in 0..i {
            assert_ne!(seen[i], seen[j]);
        }
    }
}

#[test]
fn prng_stream_is_deterministic_and_moves() {
    let mut a = Prng { state: 12345 };
    let mut b = Prng { state: 12345 };
    let x1 = a.next();
    let x2 = a.next();
    assert_eq!(x1, b.next());
    assert_eq!(x2, b.next());
    assert_ne!(x1, x2);
    let mut c = Prng { state: 12345 };
    let mut d = Prng { state: 12345 };
    let sparse = c.next_sparse();
    let (y1, y2, y3) = (d.next(), d.next(), d.next());
    assert_eq!(sparse, y1 & y2 & y3);
}

#[test]
fn rook_magic_reproduces_every_occupancy_subset() {
    let ms = make_mask_lookup();
    let (mag, tbl) = find_rmag(&ms, 0, 0).unwrap();
    assert!(mag.shift >= 51);
    assert_eq!(tbl.len(), 1usize << (64 - mag.shift));
    let mask = ms.rrel[0];
    let mut occ: u64 = 0;
    let mut count: u64 = 0;
    loop {
        let hash = occ.wrapping_mul(mag.num) >> mag.shift;
        assert_eq!(tbl[hash as usize], ratk(0, occ));
        count += 1;
        occ = occ.wrapping_sub(mask) & mask;
        if occ == 0 {
            break;
        }
    }
    // the corner rook mask holds 12 squares: 4096 subsets were checked
    assert_eq!(count, 1u64 << mask.count_ones());
}

#[test]
fn bishop_magic_reproduces_every_occupancy_subset() {
    let ms = make_mask_lookup();
    let (mag, tbl) = find_bmag(&ms, 27, 0).unwrap();
    assert!(mag.shift >= 54);
    let mask = ms.brel[27];
    let mut occ: u64 = 0;
    loop {
        let hash = occ.wrapping_mul(mag.num) >> mag.shift;
        assert_eq!(tbl[hash as usize], batk(27, occ));
        occ = occ.wrapping_sub(mask) & mask;
        if occ == 0 {
            break;
        }
    }
}

#[test]
fn assembled_tables_answer_attack_queries() {
    let ms = make_mask_lookup();
    let t = Lookup::new(&ms).unwrap();
    assert_eq!(t.rmag.len(), 64);
    assert_eq!(t.bmag.len(), 64);
    assert_eq!(t.rmag_tbl.len(), 64);
    assert_eq!(t.bmag_tbl.len(), 64);
    for &sq in &[0usize, 7, 27, 36, 63] {
        for &occ_full in &[0u64, 0x00FF_00FF_00FF_00FF, 0x1234_5678_9ABC_DEF0] {
            let rocc = occ_full & ms.rrel[sq];
            let rhash = rocc.wrapping_mul(t.rmag[sq].num) >> t.rmag[sq].shift;
            assert_eq!(t.rmag_tbl[sq][rhash as usize], ratk(sq as u8, rocc));
            // the masked occupancy answers for the full one
            assert_eq!(t.rmag_tbl[sq][rhash as usize], ratk(sq as u8, occ_full));
            let bocc = occ_full & ms.brel[sq];
            let bhash = bocc.wrapping_mul(t.bmag[sq].num) >> t.bmag[sq].shift;
            assert_eq!(t.bmag_tbl[sq][bhash as usize], batk(sq as u8, bocc));
            assert_eq!(t.bmag_tbl[sq][bhash as usize], batk(sq as u8, occ_full));
        }
    }
}
