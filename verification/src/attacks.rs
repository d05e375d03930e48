//! Ray-cast attack sets for the sliding pieces: the specification of which
//! squares a rook or bishop attacks under a given occupancy, and the
//! executable ray casters that compute them.

use vstd::prelude::*;

use crate::aliases::{Bitboard, Square};
use crate::bits::{bit, fl, group_bits, group_coords, lemma_bb_ext, lemma_bit_nonzero,
    lemma_bit_test, rk, sq_at};
use crate::masks;

verus! {

broadcast use group_bits, group_coords;

/// `m` strictly between `a` and `b`, in either order.
pub open spec fn between(a: int, b: int, m: int) -> bool {
    (a < m < b) || (b < m < a)
}

/// `m` blocks the rook line from `s` to `t`: it lies strictly between them on
/// their shared rank or file.
pub open spec fn rook_blocks(s: int, t: int, m: int) -> bool {
    (rk(s) == rk(t) && rk(m) == rk(s) && between(fl(s), fl(t), fl(m))) || (fl(s) == fl(t) && fl(m)
        == fl(s) && between(rk(s), rk(t), rk(m)))
}

/// A rook on `s` attacks `t` under occupancy `occ`: the squares share a rank
/// or file and every square strictly between them is empty. The first
/// occupied square along a ray is itself attacked; nothing beyond it is.
pub open spec fn rook_attacks(occ: u64, s: int, t: int) -> bool {
    0 <= s < 64 && 0 <= t < 64 && t != s && (rk(s) == rk(t) || fl(s) == fl(t)) && (forall|m: int|
        0 <= m < 64 && rook_blocks(s, t, m) ==> !bit(occ, m))
}

/// `m` blocks the bishop line from `s` to `t`: it lies strictly between them
/// on their shared diagonal or anti-diagonal.
pub open spec fn bishop_blocks(s: int, t: int, m: int) -> bool {
    (masks::on_diag(s, t) && masks::on_diag(s, m) && between(rk(s), rk(t), rk(m))) || (
    masks::on_adiag(s, t) && masks::on_adiag(s, m) && between(rk(s), rk(t), rk(m)))
}

/// A bishop on `s` attacks `t` under occupancy `occ`: the squares share a
/// diagonal or anti-diagonal and every square strictly between them is empty.
pub open spec fn bishop_attacks(occ: u64, s: int, t: int) -> bool {
    0 <= s < 64 && 0 <= t < 64 && t != s && (masks::on_diag(s, t) || masks::on_adiag(s, t)) && (
    forall|m: int| 0 <= m < 64 && bishop_blocks(s, t, m) ==> !bit(occ, m))
}

/// The rook or bishop attack set restricted to squares below `n`.
pub open spec fn atk_upto(occ: u64, s: int, n: int, bishop: bool) -> u64
    decreases n,
{
    if n <= 0 {
        0u64
    } else {
        let rest = atk_upto(occ, s, n - 1, bishop);
        let hit = if bishop {
            bishop_attacks(occ, s, n - 1)
        } else {
            rook_attacks(occ, s, n - 1)
        };
        if hit {
            rest | (1u64 << ((n - 1) as u64))
        } else {
            rest
        }
    }
}

/// The rook attack set from `s` under occupancy `occ`, as a bitboard.
pub open spec fn ratk_bb(occ: u64, s: int) -> u64 {
    atk_upto(occ, s, 64, false)
}

/// The bishop attack set from `s` under occupancy `occ`, as a bitboard.
pub open spec fn batk_bb(occ: u64, s: int) -> u64 {
    atk_upto(occ, s, 64, true)
}

proof fn lemma_atk_upto(occ: u64, s: int, n: int, bishop: bool)
    requires
        0 <= n <= 64,
    ensures
        forall|t: int|
            #[trigger] bit(atk_upto(occ, s, n, bishop), t) == (0 <= t < n && (if bishop {
                bishop_attacks(occ, s, t)
            } else {
                rook_attacks(occ, s, t)
            })),
    decreases n,
{
    if n > 0 {
        lemma_atk_upto(occ, s, n - 1, bishop);
        let rest = atk_upto(occ, s, n - 1, bishop);
        let hit = if bishop {
            bishop_attacks(occ, s, n - 1)
        } else {
            rook_attacks(occ, s, n - 1)
        };
        assert forall|t: int|
            #[trigger] bit(atk_upto(occ, s, n, bishop), t) == (0 <= t < n && (if bishop {
                bishop_attacks(occ, s, t)
            } else {
                rook_attacks(occ, s, t)
            })) by {
            if hit {
                assert(atk_upto(occ, s, n, bishop) == rest | (1u64 << ((n - 1) as u64)));
                crate::bits::lemma_bit_or(rest, 1u64 << ((n - 1) as u64), t);
                crate::bits::lemma_bit_single((n - 1) as u64, t);
            } else {
                assert(atk_upto(occ, s, n, bishop) == rest);
            }
        }
    } else {
        assert forall|t: int| !bit(atk_upto(occ, s, n, bishop), t) by {
            crate::bits::lemma_bit_zero(t);
        }
    }
}

/// Which squares the rook attack bitboard holds.
pub proof fn lemma_ratk_bits(occ: u64, s: int)
    ensures
        forall|t: int| #[trigger] bit(ratk_bb(occ, s), t) == rook_attacks(occ, s, t),
{
    lemma_atk_upto(occ, s, 64, false);
}

/// Which squares the bishop attack bitboard holds.
pub proof fn lemma_batk_bits(occ: u64, s: int)
    ensures
        forall|t: int| #[trigger] bit(batk_bb(occ, s), t) == bishop_attacks(occ, s, t),
{
    lemma_atk_upto(occ, s, 64, true);
}

/// No square of the file `f` strictly between ranks `lo` and `hi` is occupied.
pub open spec fn file_clear(occ: u64, f: int, lo: int, hi: int) -> bool {
    forall|r2: int| lo < r2 < hi ==> !bit(occ, #[trigger] sq_at(r2, f))
}

/// No square of the rank `r` strictly between files `lo` and `hi` is occupied.
pub open spec fn rank_clear(occ: u64, r: int, lo: int, hi: int) -> bool {
    forall|f2: int| lo < f2 < hi ==> !bit(occ, #[trigger] sq_at(r, f2))
}

/// No square of the diagonal through `s` with rank strictly between `lo` and
/// `hi` is occupied.
pub open spec fn diag_clear(occ: u64, s: int, lo: int, hi: int) -> bool {
    forall|r2: int, f2: int|
        lo < r2 < hi && f2 == fl(s) + r2 - rk(s) ==> !bit(occ, #[trigger] sq_at(r2, f2))
}

/// No square of the anti-diagonal through `s` with rank strictly between `lo`
/// and `hi` is occupied.
pub open spec fn adiag_clear(occ: u64, s: int, lo: int, hi: int) -> bool {
    forall|r2: int, f2: int|
        lo < r2 < hi && f2 == fl(s) - (r2 - rk(s)) ==> !bit(occ, #[trigger] sq_at(r2, f2))
}

pub open spec fn north_reach(occ: u64, s: int, t: int) -> bool {
    0 <= t < 64 && fl(t) == fl(s) && rk(t) > rk(s) && file_clear(occ, fl(s), rk(s), rk(t))
}

pub open spec fn south_reach(occ: u64, s: int, t: int) -> bool {
    0 <= t < 64 && fl(t) == fl(s) && rk(t) < rk(s) && file_clear(occ, fl(s), rk(t), rk(s))
}

pub open spec fn east_reach(occ: u64, s: int, t: int) -> bool {
    0 <= t < 64 && rk(t) == rk(s) && fl(t) > fl(s) && rank_clear(occ, rk(s), fl(s), fl(t))
}

pub open spec fn west_reach(occ: u64, s: int, t: int) -> bool {
    0 <= t < 64 && rk(t) == rk(s) && fl(t) < fl(s) && rank_clear(occ, rk(s), fl(t), fl(s))
}

pub open spec fn ne_reach(occ: u64, s: int, t: int) -> bool {
    0 <= t < 64 && masks::on_diag(s, t) && rk(t) > rk(s) && diag_clear(occ, s, rk(s), rk(t))
}

pub open spec fn sw_reach(occ: u64, s: int, t: int) -> bool {
    0 <= t < 64 && masks::on_diag(s, t) && rk(t) < rk(s) && diag_clear(occ, s, rk(t), rk(s))
}

pub open spec fn nw_reach(occ: u64, s: int, t: int) -> bool {
    0 <= t < 64 && masks::on_adiag(s, t) && rk(t) > rk(s) && adiag_clear(occ, s, rk(s), rk(t))
}

pub open spec fn se_reach(occ: u64, s: int, t: int) -> bool {
    0 <= t < 64 && masks::on_adiag(s, t) && rk(t) < rk(s) && adiag_clear(occ, s, rk(t), rk(s))
}

/// A rook attack is a reach along one of the four orthogonal rays.
proof fn lemma_rook_dirs(occ: u64, s: int, t: int)
    requires
        0 <= s < 64,
    ensures
        rook_attacks(occ, s, t) == (north_reach(occ, s, t) || south_reach(occ, s, t) || east_reach(
            occ,
            s,
            t,
        ) || west_reach(occ, s, t)),
{
    if rook_attacks(occ, s, t) {
        if fl(t) == fl(s) {
            if rk(t) > rk(s) {
                assert forall|r2: int| rk(s) < r2 < rk(t) implies !bit(occ, sq_at(r2, fl(s))) by {
                    assert(rook_blocks(s, t, sq_at(r2, fl(s))));
                }
            } else {
                assert forall|r2: int| rk(t) < r2 < rk(s) implies !bit(occ, sq_at(r2, fl(s))) by {
                    assert(rook_blocks(s, t, sq_at(r2, fl(s))));
                }
            }
        } else {
            if fl(t) > fl(s) {
                assert forall|f2: int| fl(s) < f2 < fl(t) implies !bit(occ, sq_at(rk(s), f2)) by {
                    assert(rook_blocks(s, t, sq_at(rk(s), f2)));
                }
            } else {
                assert forall|f2: int| fl(t) < f2 < fl(s) implies !bit(occ, sq_at(rk(s), f2)) by {
                    assert(rook_blocks(s, t, sq_at(rk(s), f2)));
                }
            }
        }
    }
    if north_reach(occ, s, t) || south_reach(occ, s, t) {
        assert forall|m: int| 0 <= m < 64 && rook_blocks(s, t, m) implies !bit(occ, m) by {
            assert(m == sq_at(rk(m), fl(m)));
        }
        assert(rook_attacks(occ, s, t));
    }
    if east_reach(occ, s, t) || west_reach(occ, s, t) {
        assert forall|m: int| 0 <= m < 64 && rook_blocks(s, t, m) implies !bit(occ, m) by {
            assert(m == sq_at(rk(m), fl(m)));
        }
        assert(rook_attacks(occ, s, t));
    }
}

/// A bishop attack is a reach along one of the four diagonal rays.
proof fn lemma_bishop_dirs(occ: u64, s: int, t: int)
    requires
        0 <= s < 64,
    ensures
        bishop_attacks(occ, s, t) == (ne_reach(occ, s, t) || sw_reach(occ, s, t) || nw_reach(
            occ,
            s,
            t,
        ) || se_reach(occ, s, t)),
{
    if bishop_attacks(occ, s, t) {
        if masks::on_diag(s, t) {
            if rk(t) > rk(s) {
                assert forall|r2: int, f2: int|
                    rk(s) < r2 < rk(t) && f2 == fl(s) + r2 - rk(s) implies !bit(
                    occ,
                    sq_at(r2, f2),
                ) by {
                    assert(bishop_blocks(s, t, sq_at(r2, f2)));
                }
            } else {
                assert(rk(t) != rk(s));
                assert forall|r2: int, f2: int|
                    rk(t) < r2 < rk(s) && f2 == fl(s) + r2 - rk(s) implies !bit(
                    occ,
                    sq_at(r2, f2),
                ) by {
                    assert(bishop_blocks(s, t, sq_at(r2, f2)));
                }
            }
        } else {
            if rk(t) > rk(s) {
                assert forall|r2: int, f2: int|
                    rk(s) < r2 < rk(t) && f2 == fl(s) - (r2 - rk(s)) implies !bit(
                    occ,
                    sq_at(r2, f2),
                ) by {
                    assert(bishop_blocks(s, t, sq_at(r2, f2)));
                }
            } else {
                assert forall|r2: int, f2: int|
                    rk(t) < r2 < rk(s) && f2 == fl(s) - (r2 - rk(s)) implies !bit(
                    occ,
                    sq_at(r2, f2),
                ) by {
                    assert(bishop_blocks(s, t, sq_at(r2, f2)));
                }
            }
        }
    }
    if ne_reach(occ, s, t) || sw_reach(occ, s, t) {
        assert forall|m: int| 0 <= m < 64 && bishop_blocks(s, t, m) implies !bit(occ, m) by {
            assert(m == sq_at(rk(m), fl(m)));
        }
        assert(bishop_attacks(occ, s, t));
    }
    if nw_reach(occ, s, t) || se_reach(occ, s, t) {
        assert forall|m: int| 0 <= m < 64 && bishop_blocks(s, t, m) implies !bit(occ, m) by {
            assert(m == sq_at(rk(m), fl(m)));
        }
        assert(bishop_attacks(occ, s, t));
    }
}

/// Casts the four orthogonal rays from `sq`, stopping inclusive of the first
/// occupied square of each.
pub fn ratk(sq: Square, b: Bitboard) -> (ret: Bitboard)
    requires
        sq < 64,
    ensures
        ret == ratk_bb(b, sq as int),
{
    let s = sq as usize;
    let rkv = s / 8;
    let flv = s % 8;
    let ghost si = s as int;
    let mut ret: u64 = 0;

    // north
    let mut k: usize = 1;
    while rkv + k < 8
        invariant_except_break
            si == sq as int,
            0 <= si < 64,
            rkv == rk(si),
            flv == fl(si),
            1 <= k,
            rkv + k <= 8,
            forall|r2: int| rkv < r2 < rkv + k ==> !bit(b, #[trigger] sq_at(r2, flv as int)),
            forall|t: int|
                0 <= t < 64 ==> (#[trigger] bit(ret, t) == (fl(t) == flv && rkv < rk(t) < rkv
                    + k)),
        ensures
            forall|t: int| 0 <= t < 64 ==> (#[trigger] bit(ret, t) == north_reach(b, si, t)),
        decreases 8 - (rkv + k),
    {
        let cur = 8 * (rkv + k) + flv;
        ret = ret | (1u64 << (cur as u64));
        proof {
            assert(cur == sq_at(rkv + k as int, flv as int));
        }
        if b & (1u64 << (cur as u64)) != 0 {
            proof {
                lemma_bit_test(b, cur as u64);
                assert forall|t: int| 0 <= t < 64 implies (bit(ret, t) == north_reach(
                    b,
                    si,
                    t,
                )) by {
                    if fl(t) == flv && rk(t) > rkv + k {
                        assert(bit(b, sq_at(rkv + k as int, flv as int)));
                    }
                }
            }
            break ;
        }
        proof {
            lemma_bit_test(b, cur as u64);
        }
        k += 1;
    }

    // south
    let mut k: usize = 1;
    while k <= rkv
        invariant_except_break
            si == sq as int,
            0 <= si < 64,
            rkv == rk(si),
            flv == fl(si),
            1 <= k,
            k <= rkv + 1,
            forall|r2: int| rkv - k < r2 < rkv ==> !bit(b, #[trigger] sq_at(r2, flv as int)),
            forall|t: int|
                0 <= t < 64 ==> (#[trigger] bit(ret, t) == (north_reach(b, si, t) || (fl(t) == flv
                    && rkv - k < rk(t) < rkv))),
        ensures
            forall|t: int|
                0 <= t < 64 ==> (#[trigger] bit(ret, t) == (north_reach(b, si, t) || south_reach(
                    b,
                    si,
                    t,
                ))),
        decreases rkv + 1 - k,
    {
        let cur = 8 * (rkv - k) + flv;
        ret = ret | (1u64 << (cur as u64));
        proof {
            assert(cur == sq_at(rkv - k as int, flv as int));
        }
        if b & (1u64 << (cur as u64)) != 0 {
            proof {
                lemma_bit_test(b, cur as u64);
                assert forall|t: int| 0 <= t < 64 implies (bit(ret, t) == (north_reach(b, si, t)
                    || south_reach(b, si, t))) by {
                    if fl(t) == flv && rk(t) < rkv - k {
                        assert(bit(b, sq_at(rkv - k as int, flv as int)));
                    }
                }
            }
            break ;
        }
        proof {
            lemma_bit_test(b, cur as u64);
        }
        k += 1;
    }

    // east
    let mut k: usize = 1;
    while flv + k < 8
        invariant_except_break
            si == sq as int,
            0 <= si < 64,
            rkv == rk(si),
            flv == fl(si),
            1 <= k,
            flv + k <= 8,
            forall|f2: int| flv < f2 < flv + k ==> !bit(b, #[trigger] sq_at(rkv as int, f2)),
            forall|t: int|
                0 <= t < 64 ==> (#[trigger] bit(ret, t) == (north_reach(b, si, t) || south_reach(
                    b,
                    si,
                    t,
                ) || (rk(t) == rkv && flv < fl(t) < flv + k))),
        ensures
            forall|t: int|
                0 <= t < 64 ==> (#[trigger] bit(ret, t) == (north_reach(b, si, t) || south_reach(
                    b,
                    si,
                    t,
                ) || east_reach(b, si, t))),
        decreases 8 - (flv + k),
    {
        let cur = 8 * rkv + flv + k;
        ret = ret | (1u64 << (cur as u64));
        proof {
            assert(cur == sq_at(rkv as int, flv + k as int));
        }
        if b & (1u64 << (cur as u64)) != 0 {
            proof {
                lemma_bit_test(b, cur as u64);
                assert forall|t: int| 0 <= t < 64 implies (bit(ret, t) == (north_reach(b, si, t)
                    || south_reach(b, si, t) || east_reach(b, si, t))) by {
                    if rk(t) == rkv && fl(t) > flv + k {
                        assert(bit(b, sq_at(rkv as int, flv + k as int)));
                    }
                }
            }
            break ;
        }
        proof {
            lemma_bit_test(b, cur as u64);
        }
        k += 1;
    }

    // west
    let mut k: usize = 1;
    while k <= flv
        invariant_except_break
            si == sq as int,
            0 <= si < 64,
            rkv == rk(si),
            flv == fl(si),
            1 <= k,
            k <= flv + 1,
            forall|f2: int| flv - k < f2 < flv ==> !bit(b, #[trigger] sq_at(rkv as int, f2)),
            forall|t: int|
                0 <= t < 64 ==> (#[trigger] bit(ret, t) == (north_reach(b, si, t) || south_reach(
                    b,
                    si,
                    t,
                ) || east_reach(b, si, t) || (rk(t) == rkv && flv - k < fl(t) < flv))),
        ensures
            forall|t: int|
                0 <= t < 64 ==> (#[trigger] bit(ret, t) == (north_reach(b, si, t) || south_reach(
                    b,
                    si,
                    t,
                ) || east_reach(b, si, t) || west_reach(b, si, t))),
        decreases flv + 1 - k,
    {
        let cur = 8 * rkv + flv - k;
        ret = ret | (1u64 << (cur as u64));
        proof {
            assert(cur == sq_at(rkv as int, flv - k as int));
        }
        if b & (1u64 << (cur as u64)) != 0 {
            proof {
                lemma_bit_test(b, cur as u64);
                assert forall|t: int| 0 <= t < 64 implies (bit(ret, t) == (north_reach(b, si, t)
                    || south_reach(b, si, t) || east_reach(b, si, t) || west_reach(b, si, t))) by {
                    if rk(t) == rkv && fl(t) < flv - k {
                        assert(bit(b, sq_at(rkv as int, flv - k as int)));
                    }
                }
            }
            break ;
        }
        proof {
            lemma_bit_test(b, cur as u64);
        }
        k += 1;
    }

    proof {
        lemma_ratk_bits(b, si);
        assert forall|t: int| 0 <= t < 64 implies bit(ret, t) == bit(ratk_bb(b, si), t) by {
            lemma_rook_dirs(b, si, t);
        }
        lemma_bb_ext(ret, ratk_bb(b, si));
    }
    ret
}

/// Casts the four diagonal rays from `sq`, stopping inclusive of the first
/// occupied square of each.
pub fn batk(sq: Square, b: Bitboard) -> (ret: Bitboard)
    requires
        sq < 64,
    ensures
        ret == batk_bb(b, sq as int),
{
    let s = sq as usize;
    let rkv = s / 8;
    let flv = s % 8;
    let ghost si = s as int;
    let mut ret: u64 = 0;

    // toward higher ranks and files
    let mut k: usize = 1;
    while rkv + k < 8 && flv + k < 8
        invariant_except_break
            si == sq as int,
            0 <= si < 64,
            rkv == rk(si),
            flv == fl(si),
            1 <= k,
            rkv + k <= 8 || flv + k <= 8,
            forall|r2: int, f2: int|
                rkv < r2 < rkv + k && f2 == flv + r2 - rkv ==> !bit(b, #[trigger] sq_at(r2, f2)),
            forall|t: int|
                0 <= t < 64 ==> (#[trigger] bit(ret, t) == (masks::on_diag(si, t) && rkv < rk(t)
                    < rkv + k)),
        ensures
            forall|t: int| 0 <= t < 64 ==> (#[trigger] bit(ret, t) == ne_reach(b, si, t)),
        decreases 8 - (rkv + k),
    {
        let cur = 8 * (rkv + k) + flv + k;
        ret = ret | (1u64 << (cur as u64));
        proof {
            assert(cur == sq_at(rkv + k as int, flv + k as int));
        }
        if b & (1u64 << (cur as u64)) != 0 {
            proof {
                lemma_bit_test(b, cur as u64);
                assert forall|t: int| 0 <= t < 64 implies (bit(ret, t) == ne_reach(b, si, t)) by {
                    if masks::on_diag(si, t) && rk(t) > rkv + k {
                        assert(bit(b, sq_at(rkv + k as int, flv + k as int)));
                    }
                }
            }
            break ;
        }
        proof {
            lemma_bit_test(b, cur as u64);
        }
        k += 1;
    }

    // toward lower ranks and files
    let mut k: usize = 1;
    while k <= rkv && k <= flv
        invariant_except_break
            si == sq as int,
            0 <= si < 64,
            rkv == rk(si),
            flv == fl(si),
            1 <= k,
            k <= rkv + 1 || k <= flv + 1,
            forall|r2: int, f2: int|
                rkv - k < r2 < rkv && f2 == flv + r2 - rkv ==> !bit(b, #[trigger] sq_at(r2, f2)),
            forall|t: int|
                0 <= t < 64 ==> (#[trigger] bit(ret, t) == (ne_reach(b, si, t) || (masks::on_diag(
                    si,
                    t,
                ) && rkv - k < rk(t) < rkv))),
        ensures
            forall|t: int|
                0 <= t < 64 ==> (#[trigger] bit(ret, t) == (ne_reach(b, si, t) || sw_reach(
                    b,
                    si,
                    t,
                ))),
        decreases rkv + 1 - k,
    {
        let cur = 8 * (rkv - k) + flv - k;
        ret = ret | (1u64 << (cur as u64));
        proof {
            assert(cur == sq_at(rkv - k as int, flv - k as int));
        }
        if b & (1u64 << (cur as u64)) != 0 {
            proof {
                lemma_bit_test(b, cur as u64);
                assert forall|t: int| 0 <= t < 64 implies (bit(ret, t) == (ne_reach(b, si, t)
                    || sw_reach(b, si, t))) by {
                    if masks::on_diag(si, t) && rk(t) < rkv - k {
                        assert(bit(b, sq_at(rkv - k as int, flv - k as int)));
                    }
                }
            }
            break ;
        }
        proof {
            lemma_bit_test(b, cur as u64);
        }
        k += 1;
    }

    // toward higher ranks, lower files
    let mut k: usize = 1;
    while rkv + k < 8 && k <= flv
        invariant_except_break
            si == sq as int,
            0 <= si < 64,
            rkv == rk(si),
            flv == fl(si),
            1 <= k,
            rkv + k <= 8 || k <= flv + 1,
            forall|r2: int, f2: int|
                rkv < r2 < rkv + k && f2 == flv - (r2 - rkv) ==> !bit(b, #[trigger] sq_at(r2, f2)),
            forall|t: int|
                0 <= t < 64 ==> (#[trigger] bit(ret, t) == (ne_reach(b, si, t) || sw_reach(b, si, t)
                    || (masks::on_adiag(si, t) && rkv < rk(t) < rkv + k))),
        ensures
            forall|t: int|
                0 <= t < 64 ==> (#[trigger] bit(ret, t) == (ne_reach(b, si, t) || sw_reach(b, si, t)
                    || nw_reach(b, si, t))),
        decreases 8 - (rkv + k),
    {
        let cur = 8 * (rkv + k) + flv - k;
        ret = ret | (1u64 << (cur as u64));
        proof {
            assert(cur == sq_at(rkv + k as int, flv - k as int));
        }
        if b & (1u64 << (cur as u64)) != 0 {
            proof {
                lemma_bit_test(b, cur as u64);
                assert forall|t: int| 0 <= t < 64 implies (bit(ret, t) == (ne_reach(b, si, t)
                    || sw_reach(b, si, t) || nw_reach(b, si, t))) by {
                    if masks::on_adiag(si, t) && rk(t) > rkv + k {
                        assert(bit(b, sq_at(rkv + k as int, flv - k as int)));
                    }
                }
            }
            break ;
        }
        proof {
            lemma_bit_test(b, cur as u64);
        }
        k += 1;
    }

    // toward lower ranks, higher files
    let mut k: usize = 1;
    while k <= rkv && flv + k < 8
        invariant_except_break
            si == sq as int,
            0 <= si < 64,
            rkv == rk(si),
            flv == fl(si),
            1 <= k,
            k <= rkv + 1 || flv + k <= 8,
            forall|r2: int, f2: int|
                rkv - k < r2 < rkv && f2 == flv - (r2 - rkv) ==> !bit(b, #[trigger] sq_at(r2, f2)),
            forall|t: int|
                0 <= t < 64 ==> (#[trigger] bit(ret, t) == (ne_reach(b, si, t) || sw_reach(b, si, t)
                    || nw_reach(b, si, t) || (masks::on_adiag(si, t) && rkv - k < rk(t) < rkv))),
        ensures
            forall|t: int|
                0 <= t < 64 ==> (#[trigger] bit(ret, t) == (ne_reach(b, si, t) || sw_reach(b, si, t)
                    || nw_reach(b, si, t) || se_reach(b, si, t))),
        decreases rkv + 1 - k,
    {
        let cur = 8 * (rkv - k) + flv + k;
        ret = ret | (1u64 << (cur as u64));
        proof {
            assert(cur == sq_at(rkv - k as int, flv + k as int));
        }
        if b & (1u64 << (cur as u64)) != 0 {
            proof {
                lemma_bit_test(b, cur as u64);
                assert forall|t: int| 0 <= t < 64 implies (bit(ret, t) == (ne_reach(b, si, t)
                    || sw_reach(b, si, t) || nw_reach(b, si, t) || se_reach(b, si, t))) by {
                    if masks::on_adiag(si, t) && rk(t) < rkv - k {
                        assert(bit(b, sq_at(rkv - k as int, flv + k as int)));
                    }
                }
            }
            break ;
        }
        proof {
            lemma_bit_test(b, cur as u64);
        }
        k += 1;
    }

    proof {
        lemma_batk_bits(b, si);
        assert forall|t: int| 0 <= t < 64 implies bit(ret, t) == bit(batk_bb(b, si), t) by {
            lemma_bishop_dirs(b, si, t);
        }
        lemma_bb_ext(ret, batk_bb(b, si));
    }
    ret
}

/// Occupancy outside the rook relevance mask cannot change the attack set:
/// every square that can block a ray lies inside the mask.
pub proof fn lemma_ratk_rel(occ: u64, rel: u64, s: int)
    requires
        0 <= s < 64,
        forall|m: int| #[trigger] bit(rel, m) == (0 <= m < 64 && masks::rrel_at(s, m)),
    ensures
        ratk_bb(occ & rel, s) == ratk_bb(occ, s),
{
    lemma_ratk_bits(occ & rel, s);
    lemma_ratk_bits(occ, s);
    assert forall|t: int| 0 <= t < 64 implies bit(ratk_bb(occ & rel, s), t) == bit(
        ratk_bb(occ, s),
        t,
    ) by {
        assert forall|m: int| 0 <= m < 64 && rook_blocks(s, t, m) implies bit(occ & rel, m) == bit(
            occ,
            m,
        ) by {
            assert(masks::rrel_at(s, m));
        }
    }
    assert forall|t: int| !(0 <= t < 64) implies bit(ratk_bb(occ & rel, s), t) == bit(
        ratk_bb(occ, s),
        t,
    ) by {
        assert(!rook_attacks(occ & rel, s, t) && !rook_attacks(occ, s, t));
    }
    lemma_bb_ext(ratk_bb(occ & rel, s), ratk_bb(occ, s));
}

/// Occupancy outside the bishop relevance mask cannot change the attack set.
pub proof fn lemma_batk_rel(occ: u64, rel: u64, s: int)
    requires
        0 <= s < 64,
        forall|m: int| #[trigger] bit(rel, m) == (0 <= m < 64 && masks::brel_at(s, m)),
    ensures
        batk_bb(occ & rel, s) == batk_bb(occ, s),
{
    lemma_batk_bits(occ & rel, s);
    lemma_batk_bits(occ, s);
    assert forall|t: int| 0 <= t < 64 implies bit(batk_bb(occ & rel, s), t) == bit(
        batk_bb(occ, s),
        t,
    ) by {
        assert forall|m: int|
            0 <= m < 64 && bishop_blocks(s, t, m) implies bit(occ & rel, m) == bit(occ, m) by {
            assert(masks::brel_at(s, m));
        }
    }
    assert forall|t: int| !(0 <= t < 64) implies bit(batk_bb(occ & rel, s), t) == bit(
        batk_bb(occ, s),
        t,
    ) by {
        assert(!bishop_attacks(occ & rel, s, t) && !bishop_attacks(occ, s, t));
    }
    lemma_bb_ext(batk_bb(occ & rel, s), batk_bb(occ, s));
}

/// A rook always attacks an adjacent square on its file.
pub proof fn lemma_ratk_nonzero(occ: u64, s: int)
    requires
        0 <= s < 64,
    ensures
        ratk_bb(occ, s) != 0,
{
    lemma_ratk_bits(occ, s);
    let t = if rk(s) > 0 {
        sq_at(rk(s) - 1, fl(s))
    } else {
        sq_at(rk(s) + 1, fl(s))
    };
    assert(rook_attacks(occ, s, t));
    lemma_bit_nonzero(ratk_bb(occ, s), t);
}

/// A bishop always attacks a diagonal neighbour.
pub proof fn lemma_batk_nonzero(occ: u64, s: int)
    requires
        0 <= s < 64,
    ensures
        batk_bb(occ, s) != 0,
{
    lemma_batk_bits(occ, s);
    let dr: int = if rk(s) < 7 {
        1
    } else {
        -1
    };
    let df: int = if fl(s) < 7 {
        1
    } else {
        -1
    };
    let t = sq_at(rk(s) + dr, fl(s) + df);
    assert(bishop_attacks(occ, s, t));
    lemma_bit_nonzero(batk_bb(occ, s), t);
}

} // verus!
