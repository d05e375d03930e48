//! The static geometry masks: per-square single bits, ranks, files, diagonals,
//! sliding-piece relevance masks, and the leaping-piece attack masks.

use vstd::prelude::*;

use crate::aliases::Bitboard;
use crate::bits::{bit, fl, group_bits, rk};

verus! {

broadcast use group_bits;

/// `s` and `t` share a diagonal (index `7 + rank - file`).
pub open spec fn on_diag(s: int, t: int) -> bool {
    rk(s) - fl(s) == rk(t) - fl(t)
}

/// `s` and `t` share an anti-diagonal (index `rank + file`).
pub open spec fn on_adiag(s: int, t: int) -> bool {
    rk(s) + fl(s) == rk(t) + fl(t)
}

/// `m` lies on none of the four outer edges of the board.
pub open spec fn interior(m: int) -> bool {
    1 <= rk(m) <= 6 && 1 <= fl(m) <= 6
}

/// Membership in the bishop relevance mask of `s`: the squares whose occupancy
/// can change a bishop's attack set from `s` - its two diagonals, less the
/// square itself and the board edges.
pub open spec fn brel_at(s: int, m: int) -> bool {
    (on_diag(s, m) || on_adiag(s, m)) && m != s && interior(m)
}

/// Membership in the rook relevance mask of `s`: the rank and file through
/// `s`, less the square itself and each edge the square does not lie on.
pub open spec fn rrel_at(s: int, m: int) -> bool {
    (rk(m) == rk(s) || fl(m) == fl(s)) && m != s && (rk(s) == 0 || rk(m) != 0) && (rk(s) == 7 || rk(
        m,
    ) != 7) && (fl(s) == 0 || fl(m) != 0) && (fl(s) == 7 || fl(m) != 7)
}

/// Membership in the king attack mask of `s`: Chebyshev distance one.
pub open spec fn king_at(s: int, m: int) -> bool {
    m != s && -1 <= rk(m) - rk(s) <= 1 && -1 <= fl(m) - fl(s) <= 1
}

/// Membership in the knight attack mask of `s`: rank and file deltas summing
/// to three in absolute value, neither exceeding two.
pub open spec fn knight_at(s: int, m: int) -> bool {
    vstd::math::abs(rk(m) - rk(s)) + vstd::math::abs(fl(m) - fl(s)) == 3 && vstd::math::abs(
        rk(m) - rk(s),
    ) <= 2 && vstd::math::abs(fl(m) - fl(s)) <= 2
}

/// Membership in the pawn-capture mask of a pawn of colour `c` on `s`: one
/// rank ahead (as the side moves), one file to either side.
pub open spec fn pcap_at(c: int, s: int, m: int) -> bool {
    (if c == 0 {
        rk(m) == rk(s) + 1
    } else {
        rk(m) == rk(s) - 1
    }) && (fl(m) == fl(s) + 1 || fl(m) == fl(s) - 1)
}

pub open spec fn sq_arr_ok(a: [Bitboard; 64]) -> bool {
    forall|j: int| 0 <= j < 64 ==> #[trigger] a[j] == (1u64 << (j as u64))
}

pub open spec fn rank_arr_ok(a: [Bitboard; 8]) -> bool {
    forall|r: int, i: int| 0 <= r < 8 ==> (#[trigger] bit(a[r], i) == (0 <= i < 64 && rk(i) == r))
}

pub open spec fn file_arr_ok(a: [Bitboard; 8]) -> bool {
    forall|f: int, i: int| 0 <= f < 8 ==> (#[trigger] bit(a[f], i) == (0 <= i < 64 && fl(i) == f))
}

pub open spec fn diag_arr_ok(a: [Bitboard; 15]) -> bool {
    forall|d: int, i: int|
        0 <= d < 15 ==> (#[trigger] bit(a[d], i) == (0 <= i < 64 && 7 + rk(i) - fl(i) == d))
}

pub open spec fn adiag_arr_ok(a: [Bitboard; 15]) -> bool {
    forall|d: int, i: int|
        0 <= d < 15 ==> (#[trigger] bit(a[d], i) == (0 <= i < 64 && rk(i) + fl(i) == d))
}

pub open spec fn brel_arr_ok(a: [Bitboard; 64]) -> bool {
    forall|s: int, m: int|
        0 <= s < 64 ==> (#[trigger] bit(a[s], m) == (0 <= m < 64 && brel_at(s, m)))
}

pub open spec fn rrel_arr_ok(a: [Bitboard; 64]) -> bool {
    forall|s: int, m: int|
        0 <= s < 64 ==> (#[trigger] bit(a[s], m) == (0 <= m < 64 && rrel_at(s, m)))
}

pub open spec fn king_arr_ok(a: [Bitboard; 64]) -> bool {
    forall|s: int, m: int|
        0 <= s < 64 ==> (#[trigger] bit(a[s], m) == (0 <= m < 64 && king_at(s, m)))
}

pub open spec fn knight_arr_ok(a: [Bitboard; 64]) -> bool {
    forall|s: int, m: int|
        0 <= s < 64 ==> (#[trigger] bit(a[s], m) == (0 <= m < 64 && knight_at(s, m)))
}

pub open spec fn pcap_arr_ok(a: [Bitboard; 64], c: int) -> bool {
    forall|s: int, m: int|
        0 <= s < 64 ==> (#[trigger] bit(a[s], m) == (0 <= m < 64 && pcap_at(c, s, m)))
}

/// The complete static mask lookup, built once by [`make_mask_lookup`].
pub struct Lookup {
    /// The single-bit mask of each square.
    pub sq: [Bitboard; 64],
    /// One mask per rank.
    pub rank: [Bitboard; 8],
    /// One mask per file.
    pub file: [Bitboard; 8],
    /// One mask per diagonal, indexed by `7 + rank - file`.
    pub diag: [Bitboard; 15],
    /// One mask per anti-diagonal, indexed by `rank + file`.
    pub adiag: [Bitboard; 15],
    /// Bishop relevance masks.
    pub brel: [Bitboard; 64],
    /// Rook relevance masks.
    pub rrel: [Bitboard; 64],
    /// King attack masks.
    pub king: [Bitboard; 64],
    /// Knight attack masks.
    pub knight: [Bitboard; 64],
    /// Pawn-capture masks, white then black.
    pub pcapture: [[Bitboard; 64]; 2],
}

impl Lookup {
    /// Every mask holds exactly the squares its geometric description names.
    pub open spec fn wf(&self) -> bool {
        &&& sq_arr_ok(self.sq)
        &&& rank_arr_ok(self.rank)
        &&& file_arr_ok(self.file)
        &&& diag_arr_ok(self.diag)
        &&& adiag_arr_ok(self.adiag)
        &&& brel_arr_ok(self.brel)
        &&& rrel_arr_ok(self.rrel)
        &&& king_arr_ok(self.king)
        &&& knight_arr_ok(self.knight)
        &&& pcap_arr_ok(self.pcapture[0], 0)
        &&& pcap_arr_ok(self.pcapture[1], 1)
    }
}

/// Which of the sixteen rank-or-file slots a rook-relevance square occupies:
/// squares on the rank of `s` by file, squares on its file by rank.
spec fn rook_slot(s: int, t: int) -> int {
    if rk(t) == rk(s) {
        fl(t)
    } else {
        8 + rk(t)
    }
}

/// Which of the line slots a bishop-relevance square occupies: squares on the
/// diagonal of `s` by rank, squares on its anti-diagonal by rank plus eight.
spec fn bishop_slot(s: int, t: int) -> int {
    if on_diag(s, t) {
        rk(t)
    } else {
        8 + rk(t)
    }
}

/// A relevance mask never holds its own square, and the bishop and rook
/// relevance masks never hold more than 10 and 13 squares: each member fits
/// an injective slot assignment with that many slots.
pub proof fn lemma_relevance_mask_bounds(ms: &Lookup, s: int)
    requires
        ms.wf(),
        0 <= s < 64,
    ensures
        !bit(ms.brel[s], s),
        !bit(ms.rrel[s], s),
        crate::bits::popcount(ms.brel[s]) <= 10,
        crate::bits::popcount(ms.rrel[s]) <= 13,
{
    broadcast use vstd::set::group_set_axioms;

    crate::bits::lemma_sq_seq(ms.brel[s]);
    crate::bits::lemma_sq_seq(ms.rrel[s]);
    crate::bits::lemma_sq_seq_no_dup(ms.brel[s]);
    crate::bits::lemma_sq_seq_no_dup(ms.rrel[s]);

    // the rook mask: its squares map injectively into sixteen slots, of
    // which three are never used
    {
        let q = crate::bits::sq_seq(ms.rrel[s]);
        let slot = |t: u8| rook_slot(s, t as int);
        let q2 = q.map_values(slot);
        let edge_slot: int = if fl(s) != 7 {
            7
        } else {
            0
        };
        let slots = vstd::set_lib::set_int_range(0, 16).remove(fl(s)).remove(8 + rk(s)).remove(
            edge_slot,
        );
        vstd::set_lib::lemma_int_range(0, 16);
        assert(slots.len() == 13);
        assert forall|k: int| 0 <= k < q2.len() implies slots.contains(#[trigger] q2[k]) by {
            let t = q[k] as int;
            assert(rrel_at(s, t));
        }
        assert(q2.to_set().subset_of(slots));
        assert forall|i: int, j: int|
            0 <= i < q2.len() && 0 <= j < q2.len() && i != j implies q2[i] != q2[j] by {
            let t1 = q[i] as int;
            let t2 = q[j] as int;
            assert(rrel_at(s, t1) && rrel_at(s, t2));
            assert(q[i] != q[j]);
        }
        q2.unique_seq_to_set();
        vstd::set_lib::lemma_len_subset(q2.to_set(), slots);
        assert(q.len() == q2.len());
    }

    // the bishop mask: twelve interior line slots, of which two are never
    // used, wherever the square stands
    {
        let q = crate::bits::sq_seq(ms.brel[s]);
        let slot = |t: u8| bishop_slot(s, t as int);
        let q2 = q.map_values(slot);
        let base = vstd::set_lib::set_int_range(1, 7).union(vstd::set_lib::set_int_range(9, 15));
        let e1: int = if rk(s) == 0 {
            if fl(s) <= 6 {
                14
            } else {
                6
            }
        } else if rk(s) == 7 {
            if fl(s) <= 6 {
                1
            } else {
                9
            }
        } else {
            rk(s)
        };
        let e2: int = if rk(s) == 0 {
            if fl(s) <= 5 {
                13
            } else {
                5
            }
        } else if rk(s) == 7 {
            if fl(s) <= 5 {
                2
            } else {
                10
            }
        } else {
            8 + rk(s)
        };
        let slots = base.remove(e1).remove(e2);
        vstd::set_lib::lemma_int_range(1, 7);
        vstd::set_lib::lemma_int_range(9, 15);
        vstd::set_lib::lemma_len_union(
            vstd::set_lib::set_int_range(1, 7),
            vstd::set_lib::set_int_range(9, 15),
        );
        assert(base.contains(e1) && base.contains(e2) && e1 != e2);
        assert(slots.len() <= 10);
        assert forall|k: int| 0 <= k < q2.len() implies slots.contains(#[trigger] q2[k]) by {
            let t = q[k] as int;
            assert(brel_at(s, t));
            if on_diag(s, t) {
                assert(fl(t) == fl(s) + (rk(t) - rk(s)));
            } else {
                assert(on_adiag(s, t));
                assert(fl(t) == fl(s) - (rk(t) - rk(s)));
            }
        }
        assert(q2.to_set().subset_of(slots));
        assert forall|i: int, j: int|
            0 <= i < q2.len() && 0 <= j < q2.len() && i != j implies q2[i] != q2[j] by {
            let t1 = q[i] as int;
            let t2 = q[j] as int;
            assert(brel_at(s, t1) && brel_at(s, t2));
            assert(q[i] != q[j]);
            if on_diag(s, t1) && on_diag(s, t2) {
                assert(fl(t1) == fl(s) + (rk(t1) - rk(s)));
                assert(fl(t2) == fl(s) + (rk(t2) - rk(s)));
            }
            if !on_diag(s, t1) && !on_diag(s, t2) {
                assert(fl(t1) == fl(s) - (rk(t1) - rk(s)));
                assert(fl(t2) == fl(s) - (rk(t2) - rk(s)));
            }
        }
        q2.unique_seq_to_set();
        vstd::set_lib::lemma_len_subset(q2.to_set(), slots);
        assert(q.len() == q2.len());
    }
}

/// Builds the complete mask lookup by pure arithmetic over the square indices.
pub fn make_mask_lookup() -> (ms: Lookup)
    ensures
        ms.wf(),
{
    let mut sqm: [Bitboard; 64] = [0u64; 64];
    let mut s: usize = 0;
    while s < 64
        invariant
            s <= 64,
            forall|j: int| 0 <= j < s ==> #[trigger] sqm[j] == (1u64 << (j as u64)),
        decreases 64 - s,
    {
        sqm[s] = 1u64 << s;
        s += 1;
    }

    let mut rankm: [Bitboard; 8] = [0u64; 8];
    let mut r: usize = 0;
    while r < 8
        invariant
            r <= 8,
            sq_arr_ok(sqm),
            forall|rr: int, i: int|
                0 <= rr < r ==> (#[trigger] bit(rankm[rr], i) == (0 <= i < 64 && rk(i) == rr)),
        decreases 8 - r,
    {
        let mut acc: u64 = 0;
        let mut f: usize = 0;
        while f < 8
            invariant
                f <= 8,
                r < 8,
                sq_arr_ok(sqm),
                forall|i: int| #[trigger] bit(acc, i) == (0 <= i < 64 && rk(i) == r && fl(i) < f),
            decreases 8 - f,
        {
            let sq = 8 * r + f;
            acc = acc | sqm[sq];
            f += 1;
        }
        rankm[r] = acc;
        r += 1;
    }

    let mut filem: [Bitboard; 8] = [0u64; 8];
    let mut f: usize = 0;
    while f < 8
        invariant
            f <= 8,
            sq_arr_ok(sqm),
            forall|ff: int, i: int|
                0 <= ff < f ==> (#[trigger] bit(filem[ff], i) == (0 <= i < 64 && fl(i) == ff)),
        decreases 8 - f,
    {
        let mut acc: u64 = 0;
        let mut r2: usize = 0;
        while r2 < 8
            invariant
                r2 <= 8,
                f < 8,
                sq_arr_ok(sqm),
                forall|i: int| #[trigger] bit(acc, i) == (0 <= i < 64 && fl(i) == f && rk(i) < r2),
            decreases 8 - r2,
        {
            let sq = 8 * r2 + f;
            acc = acc | sqm[sq];
            r2 += 1;
        }
        filem[f] = acc;
        f += 1;
    }

    let mut diagm: [Bitboard; 15] = [0u64; 15];
    let mut d: usize = 0;
    while d < 15
        invariant
            d <= 15,
            sq_arr_ok(sqm),
            forall|dd: int, i: int|
                0 <= dd < d ==> (#[trigger] bit(diagm[dd], i) == (0 <= i < 64 && 7 + rk(i) - fl(i)
                    == dd)),
        decreases 15 - d,
    {
        let mut acc: u64 = 0;
        let mut sq: usize = 0;
        while sq < 64
            invariant
                sq <= 64,
                d < 15,
                sq_arr_ok(sqm),
                forall|i: int|
                    #[trigger] bit(acc, i) == (0 <= i < sq && 7 + rk(i) - fl(i) == d),
            decreases 64 - sq,
        {
            let (rr, ff) = (sq / 8, sq % 8);
            if 7 + rr - ff == d {
                acc = acc | sqm[sq];
            }
            sq += 1;
        }
        diagm[d] = acc;
        d += 1;
    }

    let mut adiagm: [Bitboard; 15] = [0u64; 15];
    let mut d: usize = 0;
    while d < 15
        invariant
            d <= 15,
            sq_arr_ok(sqm),
            forall|dd: int, i: int|
                0 <= dd < d ==> (#[trigger] bit(adiagm[dd], i) == (0 <= i < 64 && rk(i) + fl(i)
                    == dd)),
        decreases 15 - d,
    {
        let mut acc: u64 = 0;
        let mut sq: usize = 0;
        while sq < 64
            invariant
                sq <= 64,
                d < 15,
                sq_arr_ok(sqm),
                forall|i: int| #[trigger] bit(acc, i) == (0 <= i < sq && rk(i) + fl(i) == d),
            decreases 64 - sq,
        {
            let (rr, ff) = (sq / 8, sq % 8);
            if rr + ff == d {
                acc = acc | sqm[sq];
            }
            sq += 1;
        }
        adiagm[d] = acc;
        d += 1;
    }

    let edges: u64 = rankm[0] | rankm[7] | filem[0] | filem[7];
    assert(forall|i: int|
        #[trigger] bit(edges, i) == (0 <= i < 64 && (rk(i) == 0 || rk(i) == 7 || fl(i) == 0 || fl(
            i,
        ) == 7)));

    let mut brelm: [Bitboard; 64] = [0u64; 64];
    let mut s: usize = 0;
    while s < 64
        invariant
            s <= 64,
            sq_arr_ok(sqm),
            diag_arr_ok(diagm),
            adiag_arr_ok(adiagm),
            forall|i: int|
                #[trigger] bit(edges, i) == (0 <= i < 64 && (rk(i) == 0 || rk(i) == 7 || fl(i) == 0
                    || fl(i) == 7)),
            forall|ss: int, m: int|
                0 <= ss < s ==> (#[trigger] bit(brelm[ss], m) == (0 <= m < 64 && brel_at(ss, m))),
        decreases 64 - s,
    {
        let (rr, ff) = (s / 8, s % 8);
        let (dg, adg) = (7 + rr - ff, rr + ff);
        let b = ((diagm[dg] | adiagm[adg]) ^ sqm[s]) & !edges;
        brelm[s] = b;
        s += 1;
    }

    let mut rrelm: [Bitboard; 64] = [0u64; 64];
    let mut s: usize = 0;
    while s < 64
        invariant
            s <= 64,
            sq_arr_ok(sqm),
            rank_arr_ok(rankm),
            file_arr_ok(filem),
            forall|ss: int, m: int|
                0 <= ss < s ==> (#[trigger] bit(rrelm[ss], m) == (0 <= m < 64 && rrel_at(ss, m))),
        decreases 64 - s,
    {
        let (rr, ff) = (s / 8, s % 8);
        let mut b = (rankm[rr] | filem[ff]) ^ sqm[s];
        if rr != 0 {
            b = b & !rankm[0];
        }
        if rr != 7 {
            b = b & !rankm[7];
        }
        if ff != 0 {
            b = b & !filem[0];
        }
        if ff != 7 {
            b = b & !filem[7];
        }
        rrelm[s] = b;
        s += 1;
    }

    let mut kingm: [Bitboard; 64] = [0u64; 64];
    let mut s: usize = 0;
    while s < 64
        invariant
            s <= 64,
            sq_arr_ok(sqm),
            forall|ss: int, m: int|
                0 <= ss < s ==> (#[trigger] bit(kingm[ss], m) == (0 <= m < 64 && king_at(ss, m))),
        decreases 64 - s,
    {
        let (rr, ff) = ((s / 8) as i64, (s % 8) as i64);
        let mut acc: u64 = 0;
        let mut m: usize = 0;
        while m < 64
            invariant
                m <= 64,
                s < 64,
                rr == rk(s as int),
                ff == fl(s as int),
                sq_arr_ok(sqm),
                forall|i: int| #[trigger] bit(acc, i) == (0 <= i < m && king_at(s as int, i)),
            decreases 64 - m,
        {
            let (mr, mf) = ((m / 8) as i64, (m % 8) as i64);
            if m != s && -1 <= mr - rr && mr - rr <= 1 && -1 <= mf - ff && mf - ff <= 1 {
                acc = acc | sqm[m];
            }
            m += 1;
        }
        kingm[s] = acc;
        s += 1;
    }

    let mut knightm: [Bitboard; 64] = [0u64; 64];
    let mut s: usize = 0;
    while s < 64
        invariant
            s <= 64,
            sq_arr_ok(sqm),
            forall|ss: int, m: int|
                0 <= ss < s ==> (#[trigger] bit(knightm[ss], m) == (0 <= m < 64 && knight_at(
                    ss,
                    m,
                ))),
        decreases 64 - s,
    {
        let (rr, ff) = ((s / 8) as i64, (s % 8) as i64);
        let mut acc: u64 = 0;
        let mut m: usize = 0;
        while m < 64
            invariant
                m <= 64,
                s < 64,
                rr == rk(s as int),
                ff == fl(s as int),
                sq_arr_ok(sqm),
                forall|i: int| #[trigger] bit(acc, i) == (0 <= i < m && knight_at(s as int, i)),
            decreases 64 - m,
        {
            let (mr, mf) = ((m / 8) as i64, (m % 8) as i64);
            let dr = if mr >= rr {
                mr - rr
            } else {
                rr - mr
            };
            let df = if mf >= ff {
                mf - ff
            } else {
                ff - mf
            };
            if dr + df == 3 && dr <= 2 && df <= 2 {
                acc = acc | sqm[m];
            }
            m += 1;
        }
        knightm[s] = acc;
        s += 1;
    }

    let mut wcap: [Bitboard; 64] = [0u64; 64];
    let mut bcap: [Bitboard; 64] = [0u64; 64];
    let mut s: usize = 0;
    while s < 64
        invariant
            s <= 64,
            sq_arr_ok(sqm),
            forall|ss: int, m: int|
                0 <= ss < s ==> (#[trigger] bit(wcap[ss], m) == (0 <= m < 64 && pcap_at(0, ss, m))),
            forall|ss: int, m: int|
                0 <= ss < s ==> (#[trigger] bit(bcap[ss], m) == (0 <= m < 64 && pcap_at(1, ss, m))),
        decreases 64 - s,
    {
        let (rr, ff) = ((s / 8) as i64, (s % 8) as i64);
        let mut accw: u64 = 0;
        let mut accb: u64 = 0;
        let mut m: usize = 0;
        while m < 64
            invariant
                m <= 64,
                s < 64,
                rr == rk(s as int),
                ff == fl(s as int),
                sq_arr_ok(sqm),
                forall|i: int| #[trigger] bit(accw, i) == (0 <= i < m && pcap_at(0, s as int, i)),
                forall|i: int| #[trigger] bit(accb, i) == (0 <= i < m && pcap_at(1, s as int, i)),
            decreases 64 - m,
        {
            let (mr, mf) = ((m / 8) as i64, (m % 8) as i64);
            if (mf - ff == 1 || ff - mf == 1) && mr - rr == 1 {
                accw = accw | sqm[m];
            }
            if (mf - ff == 1 || ff - mf == 1) && rr - mr == 1 {
                accb = accb | sqm[m];
            }
            m += 1;
        }
        wcap[s] = accw;
        bcap[s] = accb;
        s += 1;
    }

    Lookup {
        sq: sqm,
        rank: rankm,
        file: filem,
        diag: diagm,
        adiag: adiagm,
        brel: brelm,
        rrel: rrelm,
        king: kingm,
        knight: knightm,
        pcapture: [wcap, bcap],
    }
}

} // verus!
