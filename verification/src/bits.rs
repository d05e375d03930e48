//! The spec-level view of a bitboard: which squares a `u64` holds, stated bit
//! by bit, together with the bit-vector lemmas the rest of the crate builds on.

use vstd::prelude::*;

verus! {

/// Square `i` is in the bitboard `bb`.
pub open spec fn bit(bb: u64, i: int) -> bool {
    0 <= i < 64 && (bb >> (i as u64)) & 1u64 == 1u64
}

/// The rank of a square index.
pub open spec fn rk(s: int) -> int {
    s / 8
}

/// The file of a square index.
pub open spec fn fl(s: int) -> int {
    s % 8
}

/// The square at a rank and file.
pub open spec fn sq_at(r: int, f: int) -> int {
    8 * r + f
}

pub broadcast proof fn lemma_bit_or(a: u64, b: u64, i: int)
    ensures
        #[trigger] bit(a | b, i) == (bit(a, i) || bit(b, i)),
{
    if 0 <= i < 64 {
        let j = i as u64;
        assert(j < 64 ==> ((((a | b) >> j) & 1u64 == 1u64) == (((a >> j) & 1u64 == 1u64) || ((b
            >> j) & 1u64 == 1u64)))) by (bit_vector);
    }
}

pub broadcast proof fn lemma_bit_and(a: u64, b: u64, i: int)
    ensures
        #[trigger] bit(a & b, i) == (bit(a, i) && bit(b, i)),
{
    if 0 <= i < 64 {
        let j = i as u64;
        assert(j < 64 ==> ((((a & b) >> j) & 1u64 == 1u64) == (((a >> j) & 1u64 == 1u64) && ((b
            >> j) & 1u64 == 1u64)))) by (bit_vector);
    }
}

pub broadcast proof fn lemma_bit_xor(a: u64, b: u64, i: int)
    ensures
        #[trigger] bit(a ^ b, i) == (bit(a, i) != bit(b, i)),
{
    if 0 <= i < 64 {
        let j = i as u64;
        assert(j < 64 ==> ((((a ^ b) >> j) & 1u64 == 1u64) == (((a >> j) & 1u64 == 1u64) != ((b
            >> j) & 1u64 == 1u64)))) by (bit_vector);
    }
}

pub broadcast proof fn lemma_bit_not(a: u64, i: int)
    ensures
        #[trigger] bit(!a, i) == (0 <= i < 64 && !bit(a, i)),
{
    if 0 <= i < 64 {
        let j = i as u64;
        assert(j < 64 ==> ((((!a) >> j) & 1u64 == 1u64) == !((a >> j) & 1u64 == 1u64)))
            by (bit_vector);
    }
}

pub broadcast proof fn lemma_bit_single(s: u64, i: int)
    ensures
        s < 64 ==> (#[trigger] bit(1u64 << s, i) == (i == s as int)),
{
    if s < 64 && 0 <= i < 64 {
        let j = i as u64;
        assert(s < 64 && j < 64 ==> ((((1u64 << s) >> j) & 1u64 == 1u64) == (j == s)))
            by (bit_vector);
    }
}

pub broadcast proof fn lemma_bit_zero(i: int)
    ensures
        !(#[trigger] bit(0u64, i)),
{
    if 0 <= i < 64 {
        let j = i as u64;
        assert(((0u64 >> j) & 1u64) == 0u64) by (bit_vector);
    }
}

/// Testing one square with a mask: `b & (1 << s) != 0` is membership of `s`.
pub proof fn lemma_bit_test(b: u64, s: u64)
    requires
        s < 64,
    ensures
        (b & (1u64 << s) != 0) == bit(b, s as int),
{
    assert(s < 64 ==> ((b & (1u64 << s) != 0) == ((b >> s) & 1u64 == 1u64))) by (bit_vector);
}

/// Two bitboards with the same squares are the same word.
pub proof fn lemma_bb_ext(a: u64, b: u64)
    requires
        forall|i: int| 0 <= i < 64 ==> bit(a, i) == bit(b, i),
    ensures
        a == b,
{
    if a != b {
        let x = a ^ b;
        assert(x != 0) by (bit_vector)
            requires
                x == a ^ b && a != b,
        ;
        vstd::std_specs::bits::axiom_u64_trailing_zeros(x);
        let tz = vstd::std_specs::bits::u64_trailing_zeros(x) as int;
        assert(bit(x, tz));
        lemma_bit_xor(a, b, tz);
    }
}

/// A bitboard with a square in it is not zero.
pub proof fn lemma_bit_nonzero(a: u64, i: int)
    requires
        bit(a, i),
    ensures
        a != 0,
{
    lemma_bit_zero(i);
}

/// The coordinates of the square at a rank and file.
pub broadcast proof fn lemma_sq_at_coords(r: int, f: int)
    requires
        0 <= f < 8,
    ensures
        rk(#[trigger] sq_at(r, f)) == r,
        fl(sq_at(r, f)) == f,
{
    vstd::arithmetic::div_mod::lemma_fundamental_div_mod_converse(8 * r + f, 8, r, f);
}

/// A square is the square at its own coordinates.
pub broadcast proof fn lemma_coords_sq(i: int)
    requires
        0 <= i,
    ensures
        #![trigger rk(i), fl(i)]
        sq_at(rk(i), fl(i)) == i,
        0 <= fl(i) < 8,
        0 <= rk(i),
        i < 64 ==> rk(i) < 8,
{
    vstd::arithmetic::div_mod::lemma_fundamental_div_mod(i, 8);
    vstd::arithmetic::div_mod::lemma_mod_bound(i, 8);
    vstd::arithmetic::div_mod::lemma_div_pos_is_pos(i, 8);
}

pub broadcast group group_coords {
    lemma_sq_at_coords,
    lemma_coords_sq,
}

pub broadcast proof fn lemma_or_zero(a: u64)
    ensures
        #[trigger] (a | 0u64) == a,
{
    assert(a | 0u64 == a) by (bit_vector);
}

pub broadcast proof fn lemma_or_assoc(a: u64, b: u64, c: u64)
    ensures
        #[trigger] (a | (b | c)) == (a | b) | c,
{
    assert(a | (b | c) == (a | b) | c) by (bit_vector);
}

pub broadcast group group_bb_algebra {
    lemma_or_zero,
    lemma_or_assoc,
}

pub broadcast group group_bits {
    lemma_bit_or,
    lemma_bit_and,
    lemma_bit_xor,
    lemma_bit_not,
    lemma_bit_single,
    lemma_bit_zero,
}

/// The squares of `bb` below `n`, in increasing order.
pub open spec fn sq_seq_upto(bb: u64, n: int) -> Seq<u8>
    decreases n,
{
    if n <= 0 {
        Seq::empty()
    } else if bit(bb, n - 1) {
        sq_seq_upto(bb, n - 1).push((n - 1) as u8)
    } else {
        sq_seq_upto(bb, n - 1)
    }
}

/// The squares of a bitboard, in increasing order.
pub open spec fn sq_seq(bb: u64) -> Seq<u8> {
    sq_seq_upto(bb, 64)
}

/// What `sq_seq_upto` holds: exactly the squares below `n`, each below its
/// successors.
pub proof fn lemma_sq_seq_upto(bb: u64, n: int)
    requires
        0 <= n <= 64,
    ensures
        forall|k: int|
            0 <= k < sq_seq_upto(bb, n).len() ==> bit(bb, #[trigger] sq_seq_upto(bb, n)[k] as int)
                && sq_seq_upto(bb, n)[k] < n,
        forall|i: int| 0 <= i < n && bit(bb, i) ==> sq_seq_upto(bb, n).contains(i as u8),
        forall|k1: int, k2: int|
            0 <= k1 < k2 < sq_seq_upto(bb, n).len() ==> #[trigger] sq_seq_upto(bb, n)[k1]
                < #[trigger] sq_seq_upto(bb, n)[k2],
    decreases n,
{
    if n > 0 {
        lemma_sq_seq_upto(bb, n - 1);
        let s = sq_seq_upto(bb, n - 1);
        let s2 = sq_seq_upto(bb, n);
        if bit(bb, n - 1) {
            assert(s2 == s.push((n - 1) as u8));
            assert(forall|k: int| 0 <= k < s.len() ==> s2[k] == s[k]);
            assert(s2[s.len() as int] == (n - 1) as u8);
            assert forall|i: int| 0 <= i < n && bit(bb, i) implies s2.contains(i as u8) by {
                if i < n - 1 {
                    assert(s.contains(i as u8));
                    let k = choose|k: int| 0 <= k < s.len() && s[k] == i as u8;
                    assert(s2[k] == i as u8);
                } else {
                    assert(s2[s.len() as int] == i as u8);
                }
            }
        } else {
            assert(s2 == s);
        }
    }
}

/// How many squares a bitboard holds.
pub open spec fn popcount(bb: u64) -> nat {
    sq_seq(bb).len()
}

/// The square list of a bitboard repeats no square.
pub proof fn lemma_sq_seq_no_dup(bb: u64)
    ensures
        sq_seq(bb).no_duplicates(),
{
    lemma_sq_seq_upto(bb, 64);
    let q = sq_seq(bb);
    assert forall|i: int, j: int| 0 <= i < q.len() && 0 <= j < q.len() && i != j implies q[i]
        != q[j] by {
        if i < j {
            assert(q[i] < q[j]);
        } else {
            assert(q[j] < q[i]);
        }
    }
}

proof fn lemma_sq_seq_upto_zero(n: int)
    requires
        0 <= n <= 64,
    ensures
        sq_seq_upto(0u64, n) == Seq::<u8>::empty(),
    decreases n,
{
    if n > 0 {
        lemma_sq_seq_upto_zero(n - 1);
        lemma_bit_zero(n - 1);
    }
}

/// The empty bitboard holds no squares.
pub proof fn lemma_popcount_zero()
    ensures
        popcount(0u64) == 0,
{
    lemma_sq_seq_upto_zero(64);
}

proof fn lemma_sq_seq_upto_clear(a: u64, b: u64, i: int, n: int)
    requires
        0 <= i < 64,
        bit(a, i),
        b == a & !(1u64 << (i as u64)),
        0 <= n <= 64,
    ensures
        sq_seq_upto(b, n).len() == sq_seq_upto(a, n).len() - (if i < n {
            1int
        } else {
            0
        }),
    decreases n,
{
    broadcast use group_bits;

    if n > 0 {
        lemma_sq_seq_upto_clear(a, b, i, n - 1);
        assert(bit(b, n - 1) == (bit(a, n - 1) && n - 1 != i));
    }
}

/// Clearing one held square lowers the square count by exactly one.
pub proof fn lemma_popcount_clear(a: u64, i: int)
    requires
        0 <= i < 64,
        bit(a, i),
    ensures
        popcount(a & !(1u64 << (i as u64))) == popcount(a) - 1,
{
    lemma_sq_seq_upto_clear(a, a & !(1u64 << (i as u64)), i, 64);
}

/// A map that tells the members of a finite set apart keeps its size.
pub proof fn lemma_map_len<A, B>(s: Set<A>, f: spec_fn(A) -> B)
    requires
        s.finite(),
        forall|x1: A, x2: A|
            s.contains(x1) && s.contains(x2) && #[trigger] f(x1) == #[trigger] f(x2) ==> x1 == x2,
    ensures
        s.map(f).finite(),
        s.map(f).len() == s.len(),
    decreases s.len(),
{
    broadcast use vstd::set::group_set_axioms;

    if s.len() == 0 {
        s.lemma_len0_is_empty();
        assert(s.map(f) =~= Set::<B>::empty());
    } else {
        let a = s.choose();
        assert(s.contains(a));
        let s2 = s.remove(a);
        lemma_map_len(s2, f);
        assert forall|y: B| s.map(f).contains(y) implies s2.map(f).insert(f(a)).contains(y) by {
            let x = choose|x: A| s.contains(x) && y == f(x);
            if x == a {
            } else {
                assert(s2.contains(x) && y == f(x));
            }
        }
        assert forall|y: B| s2.map(f).insert(f(a)).contains(y) implies s.map(f).contains(y) by {
            if y == f(a) {
                assert(s.contains(a) && y == f(a));
            } else {
                let x = choose|x: A| s2.contains(x) && y == f(x);
                assert(s.contains(x) && y == f(x));
            }
        }
        assert(s.map(f) =~= s2.map(f).insert(f(a)));
        assert(!s2.map(f).contains(f(a))) by {
            if s2.map(f).contains(f(a)) {
                let x = choose|x: A| s2.contains(x) && f(a) == f(x);
                assert(x == a);
            }
        }
    }
}

/// The squares of a bitboard, as above, over the whole board.
pub proof fn lemma_sq_seq(bb: u64)
    ensures
        forall|k: int|
            0 <= k < sq_seq(bb).len() ==> bit(bb, #[trigger] sq_seq(bb)[k] as int) && sq_seq(
                bb,
            )[k] < 64,
        forall|i: int| 0 <= i < 64 && bit(bb, i) ==> sq_seq(bb).contains(i as u8),
        forall|k1: int, k2: int|
            0 <= k1 < k2 < sq_seq(bb).len() ==> #[trigger] sq_seq(bb)[k1] < #[trigger] sq_seq(
                bb,
            )[k2],
{
    lemma_sq_seq_upto(bb, 64);
}

} // verus!
