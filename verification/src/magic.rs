//! The randomized magic-number search: a multiplicative hash per square that
//! maps every occupancy subset of the relevance mask to a table slot holding
//! the exact ray-cast attack set.

use vstd::prelude::*;

use crate::aliases::{Bitboard, Square};
use crate::attacks;
use crate::masks;

verus! {

/// An xorshift* pseudo-random stream.
/// <https://en.wikipedia.org/wiki/Xorshift>
pub struct Prng {
    pub state: u64,
}

/// One xorshift* step of the stream state.
pub open spec fn prng_next_spec(s: u64) -> u64 {
    let a = s ^ (s >> 12);
    let b = a ^ (a << 25);
    let c = b ^ (b >> 27);
    vstd::wrapping::u64_specs::wrapping_mul(c, 0x2545F4914F6CDD1Du64)
}

impl Prng {
    pub fn next(&mut self) -> (r: u64)
        ensures
            final(self).state == prng_next_spec(old(self).state),
            r == final(self).state,
    {
        self.state = self.state ^ (self.state >> 12u64);
        self.state = self.state ^ (self.state << 25u64);
        self.state = self.state ^ (self.state >> 27u64);
        self.state = self.state.wrapping_mul(0x2545F4914F6CDD1Du64);
        self.state
    }

    /// Three draws ANDed together, biasing candidates toward few set bits.
    pub fn next_sparse(&mut self) -> (r: u64)
        ensures
            ({
                let x = prng_next_spec(old(self).state);
                let y = prng_next_spec(x);
                let z = prng_next_spec(y);
                final(self).state == z && r == (x & y & z)
            }),
    {
        let x = self.next();
        let y = self.next();
        let z = self.next();
        x & y & z
    }
}

/// A multiplicative hash: `h(occ) = (occ * num) >> shift`, with wraparound
/// multiplication.
#[derive(Copy, Clone)]
pub struct Magic {
    pub num: u64,
    pub shift: u8,
}

/// The hash slot a magic assigns to an occupancy.
pub open spec fn transform_spec(m: Magic, b: u64) -> u64 {
    vstd::wrapping::u64_specs::wrapping_mul(b, m.num) >> (m.shift as u64)
}

impl Magic {
    pub fn transform(&self, b: Bitboard) -> (r: u64)
        requires
            self.shift < 64,
        ensures
            r == transform_spec(*self, b),
    {
        b.wrapping_mul(self.num) >> (self.shift as u64)
    }
}

/// A hash slot never reaches the table size `2^(64 - shift)`.
proof fn lemma_transform_range(m: Magic, b: u64)
    requires
        51 <= m.shift < 64,
    ensures
        transform_spec(m, b) < (1u64 << ((64 - m.shift) as u64)),
{
    let p = vstd::wrapping::u64_specs::wrapping_mul(b, m.num);
    let sh = m.shift as u64;
    let w = (64 - m.shift) as u64;
    assert(p >> sh < (1u64 << w)) by (bit_vector)
        requires
            1 <= sh < 64 && w == 64 - sh,
    ;
}

/// The Carry-Rippler step: the next subset of `mask` after `s`.
pub open spec fn rip_next(s: u64, mask: u64) -> u64 {
    vstd::wrapping::u64_specs::wrapping_sub(s, mask) & mask
}

/// The step yields a subset again, strictly larger unless `s` was the mask
/// itself, in which case it wraps to the empty subset.
pub proof fn lemma_rip_next(s: u64, mask: u64)
    requires
        s & mask == s,
    ensures
        rip_next(s, mask) & mask == rip_next(s, mask),
        s == mask ==> rip_next(s, mask) == 0,
        s != mask ==> rip_next(s, mask) > s,
{
    let n = rip_next(s, mask);
    assert(n == (if s - mask < 0 {
        ((s - mask + 0x1_0000_0000_0000_0000) as u64) & mask
    } else {
        ((s - mask) as u64) & mask
    }));
    assert((n & mask == n) && (s == mask ==> n == 0) && (s != mask ==> n > s)) by (bit_vector)
        requires
            s & mask == s,
            n == (if s - mask < 0 {
                ((s - mask + 0x1_0000_0000_0000_0000) as u64) & mask
            } else {
                ((s - mask) as u64) & mask
            }),
    ;
}

/// The step skips no subset: every subset above `s` is at least the next one.
pub proof fn lemma_rip_min(s: u64, mask: u64, t: u64)
    requires
        s & mask == s,
        t & mask == t,
        s < t,
    ensures
        rip_next(s, mask) <= t,
{
    let n = rip_next(s, mask);
    assert(n == (if s - mask < 0 {
        ((s - mask + 0x1_0000_0000_0000_0000) as u64) & mask
    } else {
        ((s - mask) as u64) & mask
    }));
    assert(n <= t) by (bit_vector)
        requires
            s & mask == s,
            t & mask == t,
            s < t,
            n == (if s - mask < 0 {
                ((s - mask + 0x1_0000_0000_0000_0000) as u64) & mask
            } else {
                ((s - mask) as u64) & mask
            }),
    ;
}

/// The subsets of a mask, as a set of bitboards.
pub open spec fn subsets_of(mask: u64) -> Set<u64> {
    Set::new(|t: u64| t & mask == t)
}

/// A mask of `k` squares has exactly `2^k` subsets: together with the step
/// lemmas, the Carry-Rippler traversal from the empty subset visits exactly
/// `2^k` distinct subsets before it returns to the empty one.
pub proof fn lemma_subset_count(mask: u64)
    ensures
        subsets_of(mask).finite(),
        subsets_of(mask).len() == vstd::arithmetic::power2::pow2(crate::bits::popcount(mask)),
    decreases mask,
{
    broadcast use vstd::set::group_set_axioms;

    if mask == 0 {
        assert forall|t: u64| subsets_of(0u64).contains(t) implies t == 0u64 by {
            assert(t & 0u64 == 0u64) by (bit_vector);
        }
        assert(0u64 & 0u64 == 0u64) by (bit_vector);
        assert(subsets_of(0u64) =~= Set::<u64>::empty().insert(0u64));
        crate::bits::lemma_popcount_zero();
        vstd::arithmetic::power2::lemma2_to64();
    } else {
        vstd::std_specs::bits::axiom_u64_trailing_zeros(mask);
        let tz = vstd::std_specs::bits::u64_trailing_zeros(mask) as int;
        let tzu = tz as u64;
        let b = 1u64 << tzu;
        let m2 = mask & !b;
        assert(crate::bits::bit(mask, tz));
        crate::bits::lemma_popcount_clear(mask, tz);
        assert(m2 < mask) by (bit_vector)
            requires
                m2 == mask & !b && b == 1u64 << tzu && tzu < 64 && (mask >> tzu) & 1u64 == 1u64,
        ;
        assert(b != 0) by (bit_vector)
            requires
                b == 1u64 << tzu && tzu < 64,
        ;
        lemma_subset_count(m2);

        let f = |t: u64| t | b;
        let sa = subsets_of(m2);
        let sb = sa.map(f);
        assert forall|x1: u64, x2: u64|
            sa.contains(x1) && sa.contains(x2) && #[trigger] f(x1) == #[trigger] f(
                x2,
            ) implies x1 == x2 by {
            assert(x1 & m2 == x1 && x2 & m2 == x2 && (x1 | b) == (x2 | b) && m2 == mask & !b && b
                != 0 ==> x1 == x2) by (bit_vector);
        }
        crate::bits::lemma_map_len(sa, f);

        assert forall|t: u64| subsets_of(mask).contains(t) implies (sa + sb).contains(t) by {
            if t & b == 0 {
                assert(t & mask == t && t & b == 0 && m2 == mask & !b ==> t & m2 == t)
                    by (bit_vector);
            } else {
                let t2 = t & !b;
                assert(t & mask == t && t & b != 0 && m2 == mask & !b && t2 == t & !b && b == 1u64
                    << tzu && tzu < 64 ==> (t2 & m2 == t2 && (t2 | b) == t)) by (bit_vector);
                assert(sa.contains(t2) && t == f(t2));
            }
        }
        assert forall|t: u64| (sa + sb).contains(t) implies subsets_of(mask).contains(t) by {
            if sa.contains(t) {
                assert(t & m2 == t && m2 == mask & !b ==> t & mask == t) by (bit_vector);
            } else {
                let x = choose|x: u64| sa.contains(x) && t == f(x);
                assert(x & m2 == x && m2 == mask & !b && t == (x | b) && b == 1u64 << tzu && tzu
                    < 64 && (mask >> tzu) & 1u64 == 1u64 ==> t & mask == t) by (bit_vector);
            }
        }
        assert(subsets_of(mask) =~= sa + sb);

        assert(sa.disjoint(sb)) by {
            if !sa.disjoint(sb) {
                let t = choose|t: u64| sa.contains(t) && sb.contains(t);
                let x = choose|x: u64| sa.contains(x) && t == f(x);
                assert(t & m2 == t && m2 == mask & !b && t == (x | b) && b != 0 ==> false)
                    by (bit_vector);
            }
        }
        vstd::set_lib::lemma_set_disjoint_lens(sa, sb);
        vstd::arithmetic::power2::lemma_pow2_unfold(crate::bits::popcount(mask));
    }
}

/// The subset the traversal stands on after `n` steps from the empty one.
pub open spec fn rip_iter(mask: u64, n: nat) -> u64
    decreases n,
{
    if n == 0 {
        0u64
    } else {
        rip_next(rip_iter(mask, (n - 1) as nat), mask)
    }
}

/// The subsets of a mask below a bound.
spec fn below(mask: u64, s: u64) -> Set<u64> {
    Set::new(|t: u64| t & mask == t && t < s)
}

proof fn lemma_below_finite(mask: u64, s: u64)
    ensures
        below(mask, s).finite(),
        below(mask, s).subset_of(subsets_of(mask)),
{
    lemma_subset_count(mask);
    vstd::set_lib::lemma_set_subset_finite(subsets_of(mask), below(mask, s));
}

/// One step extends the set of passed subsets by exactly the one left.
proof fn lemma_below_step(mask: u64, s: u64)
    requires
        s & mask == s,
        s != mask,
    ensures
        below(mask, rip_next(s, mask)) =~= below(mask, s).insert(s),
{
    lemma_rip_next(s, mask);
    assert forall|t: u64| below(mask, rip_next(s, mask)).contains(t) implies below(
        mask,
        s,
    ).insert(s).contains(t) by {
        if t > s {
            lemma_rip_min(s, mask, t);
        }
    }
}

/// Fewer subsets sit below a smaller subset.
proof fn lemma_below_mono(mask: u64, s1: u64, s2: u64)
    requires
        s1 & mask == s1,
        s1 < s2,
    ensures
        below(mask, s1).len() < below(mask, s2).len(),
{
    broadcast use vstd::set::group_set_axioms;

    lemma_below_finite(mask, s1);
    lemma_below_finite(mask, s2);
    assert(below(mask, s2).contains(s1));
    assert(below(mask, s1).subset_of(below(mask, s2).remove(s1)));
    vstd::set_lib::lemma_len_subset(below(mask, s1), below(mask, s2).remove(s1));
}

/// After `n` steps the traversal stands on a subset with exactly `n` subsets
/// behind it.
proof fn lemma_rip_iter_rank(mask: u64, n: nat)
    requires
        n < subsets_of(mask).len(),
    ensures
        rip_iter(mask, n) & mask == rip_iter(mask, n),
        below(mask, rip_iter(mask, n)).len() == n,
    decreases n,
{
    broadcast use vstd::set::group_set_axioms;

    lemma_subset_count(mask);
    if n == 0 {
        assert(0u64 & mask == 0u64) by (bit_vector);
        assert(below(mask, 0u64) =~= Set::<u64>::empty());
    } else {
        lemma_rip_iter_rank(mask, (n - 1) as nat);
        let s = rip_iter(mask, (n - 1) as nat);
        assert(mask & mask == mask) by (bit_vector);
        assert(subsets_of(mask).contains(mask));
        assert forall|t: u64| below(mask, mask).contains(t) implies subsets_of(mask).remove(
            mask,
        ).contains(t) by {}
        assert forall|t: u64| subsets_of(mask).remove(mask).contains(t) implies below(
            mask,
            mask,
        ).contains(t) by {
            lemma_subset_le(t, mask);
        }
        assert(below(mask, mask) =~= subsets_of(mask).remove(mask));
        if s == mask {
            assert(below(mask, s).len() == subsets_of(mask).len() - 1);
        }
        assert(s != mask);
        lemma_rip_next(s, mask);
        lemma_below_step(mask, s);
        lemma_below_finite(mask, s);
        assert(!below(mask, s).contains(s));
    }
}

/// The whole Carry-Rippler traversal: starting from the empty subset, a mask
/// of `k` squares is walked through exactly `2^k` stations, every one a
/// distinct subset of the mask, every subset among them, and the step after
/// the last returns to the empty subset for the first time.
pub proof fn lemma_rippler_traversal(mask: u64)
    ensures
        rip_iter(mask, 0) == 0,
        rip_iter(mask, vstd::arithmetic::power2::pow2(crate::bits::popcount(mask))) == 0,
        forall|n: nat|
            n < vstd::arithmetic::power2::pow2(crate::bits::popcount(mask)) ==> (#[trigger] rip_iter(
                mask,
                n,
            )) & mask == rip_iter(mask, n),
        forall|n1: nat, n2: nat|
            n1 < n2 < vstd::arithmetic::power2::pow2(crate::bits::popcount(mask))
                ==> #[trigger] rip_iter(mask, n1) != #[trigger] rip_iter(mask, n2),
        forall|t: u64|
            t & mask == t ==> exists|n: nat|
                n < vstd::arithmetic::power2::pow2(crate::bits::popcount(mask)) && rip_iter(mask, n)
                    == t,
        forall|n: nat|
            0 < n < vstd::arithmetic::power2::pow2(crate::bits::popcount(mask)) ==> #[trigger] rip_iter(
                mask,
                n,
            ) != 0,
{
    broadcast use vstd::set::group_set_axioms;

    lemma_subset_count(mask);
    let total = subsets_of(mask).len();
    assert forall|n: nat| n < total implies (#[trigger] rip_iter(mask, n)) & mask == rip_iter(
        mask,
        n,
    ) by {
        lemma_rip_iter_rank(mask, n);
    }
    assert forall|n1: nat, n2: nat| n1 < n2 < total implies #[trigger] rip_iter(mask, n1)
        != #[trigger] rip_iter(mask, n2) by {
        lemma_rip_iter_rank(mask, n1);
        lemma_rip_iter_rank(mask, n2);
    }
    assert forall|t: u64| t & mask == t implies exists|n: nat|
        n < total && rip_iter(mask, n) == t by {
        let n = below(mask, t).len();
        lemma_below_finite(mask, t);
        assert(mask & mask == mask) by (bit_vector);
        assert(subsets_of(mask).contains(t));
        assert(!below(mask, t).contains(t));
        assert(below(mask, t).subset_of(subsets_of(mask).remove(t)));
        vstd::set_lib::lemma_len_subset(below(mask, t), subsets_of(mask).remove(t));
        assert(n < total);
        lemma_rip_iter_rank(mask, n);
        let s = rip_iter(mask, n);
        if s < t {
            lemma_below_mono(mask, s, t);
        }
        if t < s {
            lemma_below_mono(mask, t, s);
        }
        assert(s == t);
    }
    assert forall|n: nat| 0 < n < total implies #[trigger] rip_iter(mask, n) != 0 by {
        lemma_rip_iter_rank(mask, n);
        if rip_iter(mask, n) == 0 {
            assert(below(mask, 0u64) =~= Set::<u64>::empty());
        }
    }
    // the step after the last station wraps to the empty subset
    vstd::arithmetic::power2::lemma_pow2_pos(crate::bits::popcount(mask));
    assert(total >= 1);
    lemma_rip_iter_rank(mask, (total - 1) as nat);
    let last = rip_iter(mask, (total - 1) as nat);
    assert(mask & mask == mask) by (bit_vector);
    assert forall|t: u64| below(mask, mask).contains(t) implies subsets_of(mask).remove(
        mask,
    ).contains(t) by {}
    assert forall|t: u64| subsets_of(mask).remove(mask).contains(t) implies below(
        mask,
        mask,
    ).contains(t) by {
        lemma_subset_le(t, mask);
    }
    assert(below(mask, mask) =~= subsets_of(mask).remove(mask));
    if last < mask {
        lemma_below_mono(mask, last, mask);
    }
    lemma_subset_le(last, mask);
    assert(last == mask);
    lemma_rip_next(mask, mask);
}

/// A subset of a mask is at most the mask.
pub proof fn lemma_subset_le(t: u64, mask: u64)
    requires
        t & mask == t,
    ensures
        t <= mask,
{
    assert(t & mask == t ==> t <= mask) by (bit_vector);
}

/// The relevance mask a magic is checked against.
pub open spec fn rel_of(ms: &masks::Lookup, s: int, bishop: bool) -> u64 {
    if bishop {
        ms.brel[s]
    } else {
        ms.rrel[s]
    }
}

/// The true ray-cast attack set a table slot must hold.
pub open spec fn atk_of(occ: u64, s: int, bishop: bool) -> u64 {
    if bishop {
        attacks::batk_bb(occ, s)
    } else {
        attacks::ratk_bb(occ, s)
    }
}

/// The defining property of a finished magic: its table reproduces the
/// ray-cast attack set for every occupancy subset of the relevance mask.
pub open spec fn magic_ok(ms: &masks::Lookup, s: int, bishop: bool, mag: Magic, tbl: Seq<u64>) -> bool {
    &&& 51 <= mag.shift < 64
    &&& tbl.len() == 1u64 << ((64 - mag.shift) as u64)
    &&& forall|o: u64|
        o & rel_of(ms, s, bishop) == o ==> (#[trigger] transform_spec(mag, o) < tbl.len()
            && tbl[transform_spec(mag, o) as int] == atk_of(o, s, bishop))
}

/// A table of empty slots for one magic trial.
fn zero_table(n: usize) -> (v: Vec<Bitboard>)
    ensures
        v@.len() == n,
        forall|i: int| 0 <= i < n ==> v@[i] == 0u64,
{
    let mut v: Vec<Bitboard> = Vec::new();
    let mut k: usize = 0;
    while k < n
        invariant
            k <= n,
            v@.len() == k,
            forall|i: int| 0 <= i < k ==> v@[i] == 0u64,
        decreases n - k,
    {
        v.push(0u64);
        k += 1;
    }
    v
}

/// Checks whether a candidate magic is collision-free for `sq`, walking every
/// subset of the relevance mask with the Carry-Rippler traversal. It accepts
/// exactly when every pair of subsets hashed to the same slot shares one
/// attack set: on success the scratch table holds the full
/// occupancy-to-attack mapping; on failure every written slot is rolled back
/// to empty.
pub fn check_mag(ms: &masks::Lookup, mag: &Magic, vec: &mut Vec<Bitboard>, sq: Square, bishop: bool) -> (ok: bool)
    requires
        ms.wf(),
        sq < 64,
        51 <= mag.shift < 64,
        old(vec)@.len() == 1u64 << ((64 - mag.shift) as u64),
        forall|i: int| 0 <= i < old(vec)@.len() ==> old(vec)@[i] == 0u64,
    ensures
        final(vec)@.len() == old(vec)@.len(),
        ok ==> magic_ok(ms, sq as int, bishop, *mag, final(vec)@),
        !ok ==> final(vec)@ == old(vec)@,
        (forall|o1: u64, o2: u64|
            #![trigger transform_spec(*mag, o1), transform_spec(*mag, o2)]
            o1 & rel_of(ms, sq as int, bishop) == o1 && o2 & rel_of(ms, sq as int, bishop) == o2
                && transform_spec(*mag, o1) == transform_spec(*mag, o2) ==> atk_of(
                o1,
                sq as int,
                bishop,
            ) == atk_of(o2, sq as int, bishop)) ==> ok,
{
    let rel_mask = if bishop {
        ms.brel[sq as usize]
    } else {
        ms.rrel[sq as usize]
    };
    let mut rel_bits: u64 = 0;
    let mut stack: Vec<usize> = Vec::new();
    let ghost len0 = vec@.len() as int;
    proof {
        vstd::std_specs::vec::axiom_spec_len(vec);
        assert(len0 <= usize::MAX);
        assert(0u64 & rel_mask == 0u64) by (bit_vector);
    }

    loop
        invariant_except_break
            ms.wf(),
            sq < 64,
            51 <= mag.shift < 64,
            rel_mask == rel_of(ms, sq as int, bishop),
            vec@.len() == len0,
            old(vec)@.len() == len0,
            forall|i: int| 0 <= i < len0 ==> old(vec)@[i] == 0u64,
            len0 == 1u64 << ((64 - mag.shift) as u64),
            len0 <= usize::MAX,
            rel_bits & rel_mask == rel_bits,
            forall|t: u64|
                t & rel_mask == t && t < rel_bits ==> (#[trigger] transform_spec(*mag, t) < len0
                    && vec@[transform_spec(*mag, t) as int] == atk_of(t, sq as int, bishop)),
            forall|i: int|
                0 <= i < len0 && #[trigger] vec@[i] != 0 ==> exists|t: u64|
                    t & rel_mask == t && t < rel_bits && #[trigger] transform_spec(*mag, t) == i,
            forall|i: int| 0 <= i < len0 && #[trigger] vec@[i] != 0 ==> stack@.contains(i as usize),
            forall|j: int| 0 <= j < stack@.len() ==> #[trigger] stack@[j] < len0,
        ensures
            vec@.len() == len0,
            forall|t: u64|
                t & rel_mask == t ==> (#[trigger] transform_spec(*mag, t) < len0 && vec@[
                transform_spec(*mag, t) as int] == atk_of(t, sq as int, bishop)),
        decreases rel_mask - rel_bits,
    {
        proof {
            lemma_subset_le(rel_bits, rel_mask);
        }
        let att = if bishop {
            attacks::batk(sq, rel_bits)
        } else {
            attacks::ratk(sq, rel_bits)
        };
        proof {
            if bishop {
                attacks::lemma_batk_nonzero(rel_bits, sq as int);
            } else {
                attacks::lemma_ratk_nonzero(rel_bits, sq as int);
            }
        }
        let hash64 = mag.transform(rel_bits);
        proof {
            lemma_transform_range(*mag, rel_bits);
        }
        let hash = hash64 as usize;
        let slot = vec[hash];

        if slot != 0 && slot != att {
            // a destructive collision: the slot already holds the attack set
            // of an earlier subset hashed to the same place, and it differs
            let ghost bad = choose|t: u64|
                t & rel_mask == t && t < rel_bits && #[trigger] transform_spec(*mag, t)
                    == hash as int;
            proof {
                assert(vec@[hash as int] != 0);
                assert(bad & rel_mask == bad && bad < rel_bits && transform_spec(*mag, bad)
                    == hash as int);
                assert(vec@[transform_spec(*mag, bad) as int] == atk_of(bad, sq as int, bishop));
                assert(atk_of(bad, sq as int, bishop) == slot);
                assert(transform_spec(*mag, bad) == transform_spec(*mag, rel_bits));
                assert(atk_of(rel_bits, sq as int, bishop) == att);
                assert(atk_of(bad, sq as int, bishop) != atk_of(rel_bits, sq as int, bishop));
                assert forall|i: int| 0 <= i < len0 && #[trigger] vec@[i] != 0 implies exists|
                    jj: int,
                | 0 <= jj < stack@.len() && #[trigger] stack@[jj] == i as usize by {
                    assert(stack@.contains(i as usize));
                }
            }
            let mut j: usize = 0;
            while j < stack.len()
                invariant
                    vec@.len() == len0,
                    j <= stack@.len(),
                    forall|jj: int| 0 <= jj < stack@.len() ==> #[trigger] stack@[jj] < len0,
                    len0 <= usize::MAX,
                    forall|i: int|
                        0 <= i < len0 && #[trigger] vec@[i] != 0 ==> exists|jj: int|
                            j <= jj < stack@.len() && #[trigger] stack@[jj] == i as usize,
                decreases stack@.len() - j,
            {
                let idx = stack[j];
                vec[idx] = 0u64;
                j += 1;
            }
            proof {
                assert forall|i: int| 0 <= i < len0 implies vec@[i] == 0u64 && old(vec)@[i]
                    == 0u64 by {
                    if vec@[i] != 0u64 {
                        let jj = choose|jj: int|
                            stack@.len() <= jj < stack@.len() && stack@[jj] == i as usize;
                        assert(false);
                    }
                    assert(old(vec)@[i] == 0u64);
                }
                assert(vec@ =~= old(vec)@);
                // `bad` and the current subset witness the destructive
                // collision, so acceptance is not owed
                assert(!(forall|o1: u64, o2: u64|
                    #![trigger transform_spec(*mag, o1), transform_spec(*mag, o2)]
                    o1 & rel_mask == o1 && o2 & rel_mask == o2 && transform_spec(*mag, o1)
                        == transform_spec(*mag, o2) ==> atk_of(o1, sq as int, bishop) == atk_of(
                        o2,
                        sq as int,
                        bishop,
                    ))) by {
                    assert(bad & rel_mask == bad && rel_bits & rel_mask == rel_bits
                        && transform_spec(*mag, bad) == transform_spec(*mag, rel_bits) && atk_of(
                        bad,
                        sq as int,
                        bishop,
                    ) != atk_of(rel_bits, sq as int, bishop));
                }
            }
            return false;
        }

        let ghost old_vec = vec@;
        let ghost old_stack = stack@;
        vec[hash] = att;
        stack.push(hash);
        let ghost prev = rel_bits;
        rel_bits = rel_bits.wrapping_sub(rel_mask) & rel_mask;

        proof {
            assert(rel_bits == rip_next(prev, rel_mask));
            lemma_rip_next(prev, rel_mask);
            lemma_subset_le(rel_bits, rel_mask);
            // every subset up to and including `prev` is now mapped correctly
            assert forall|t: u64| #![trigger transform_spec(*mag, t)] t & rel_mask == t && t <= prev implies (transform_spec(*mag, t)
                < len0 && vec@[transform_spec(*mag, t) as int] == atk_of(
                t,
                sq as int,
                bishop,
            )) by {
                if t < prev {
                    if transform_spec(*mag, t) == hash64 {
                        assert(old_vec[hash as int] == atk_of(t, sq as int, bishop));
                        if bishop {
                            attacks::lemma_batk_nonzero(t, sq as int);
                        } else {
                            attacks::lemma_ratk_nonzero(t, sq as int);
                        }
                        assert(slot == att);
                    }
                }
            }
            assert forall|t: u64| t & rel_mask == t && t < rel_bits implies t <= prev by {
                if t > prev {
                    lemma_rip_min(prev, rel_mask, t);
                }
            }
            assert forall|i: int| 0 <= i < len0 && #[trigger] vec@[i] != 0 implies stack@.contains(
                i as usize,
            ) by {
                if i == hash as int {
                    assert(stack@[stack@.len() - 1] == hash);
                } else {
                    assert(old_vec[i] != 0);
                    assert(old_stack.contains(i as usize));
                    let jj = choose|jj: int|
                        0 <= jj < old_stack.len() && old_stack[jj] == i as usize;
                    assert(stack@[jj] == i as usize);
                }
            }
            if rel_bits != 0 {
                assert forall|i: int| 0 <= i < len0 && #[trigger] vec@[i] != 0 implies exists|
                    t: u64,
                |
                    t & rel_mask == t && t < rel_bits && #[trigger] transform_spec(*mag, t)
                        == i by {
                    if i == hash as int {
                        assert(prev < rel_bits);
                        assert(transform_spec(*mag, prev) == i);
                    } else {
                        assert(old_vec[i] != 0);
                        let t0 = choose|t: u64|
                            t & rel_mask == t && t < prev && #[trigger] transform_spec(*mag, t)
                                == i;
                        assert(t0 < rel_bits && transform_spec(*mag, t0) == i);
                    }
                }
            }
        }

        if rel_bits == 0 {
            proof {
                assert(prev == rel_mask);
                assert forall|t: u64| #![trigger transform_spec(*mag, t)] t & rel_mask == t implies (transform_spec(*mag, t) < len0
                    && vec@[transform_spec(*mag, t) as int] == atk_of(t, sq as int, bishop)) by {
                    lemma_subset_le(t, rel_mask);
                }
            }
            break ;
        }
    }
    true
}

} // verus!


verus! {

/// The one failure the search can report: no collision-free magic was found
/// even at the guaranteed widest table, which signals a defect in the masks
/// or the ray casting, not a condition a caller can provoke.
#[derive(Copy, Clone, PartialEq, Eq, Structural, Debug)]
pub enum MagicSearchError {
    NoMagicFound,
}

/// Relies on std::time::SystemTime::now for the wall clock, read as whole
/// milliseconds since the Unix epoch; a clock before the epoch reads as 0.
/// Nothing is promised of the value.
#[verifier::external_body]
fn now_millis() -> u64 {
    match std::time::SystemTime::now().duration_since(std::time::UNIX_EPOCH) {
        Ok(d) => d.as_millis() as u64,
        Err(_) => 0,
    }
}

/// Searches for the magic with the narrowest table it can reach within the
/// time budget, drawing sparse random candidates. The widest table (width 10
/// for a bishop, 13 for a rook) always admits a magic, and its search is not
/// time-boxed: the deadline only abandons the narrower widths, once some
/// magic is already in hand.
pub fn find_mag(ms: &masks::Lookup, sq: Square, d_millis: u64, bishop: bool) -> (ret: Result<
    (Magic, Vec<Bitboard>),
    MagicSearchError,
>)
    requires
        ms.wf(),
        sq < 64,
    ensures
        ret matches Ok(p) ==> magic_ok(ms, sq as int, bishop, p.0, p.1@),
        ret matches Ok(p) ==> p.0.shift + (if bishop {
            10int
        } else {
            13int
        }) >= 64,
{
    let seed = now_millis();
    let mut rng = Prng {
        state: if seed == 0 {
            1
        } else {
            seed
        },
    };
    let start_time = now_millis();

    let mut found = false;
    let mut ret_mag = Magic { num: 0, shift: 51 };
    let mut ret_vec: Vec<Bitboard> = Vec::new();
    let mut stop = false;

    let initial_width: u8 = if bishop {
        10
    } else {
        13
    };
    let mut width = initial_width;

    while !stop && width >= 1
        invariant
            ms.wf(),
            sq < 64,
            1 <= initial_width <= 13,
            width <= initial_width,
            width < initial_width ==> found,
            stop ==> found,
            found ==> magic_ok(ms, sq as int, bishop, ret_mag, ret_vec@),
            found ==> ret_mag.shift + initial_width >= 64,
        decreases width,
    {
        let shift: u8 = 64 - width;
        let size64: u64 = 1u64 << (width as u64);
        proof {
            assert(size64 <= 8192) by (bit_vector)
                requires
                    size64 == 1u64 << ((64 - shift) as u64) && 51 <= shift < 64,
            ;
        }
        let mut vec = zero_table(size64 as usize);
        let mut tries: u64 = 0;

        loop
            invariant_except_break
                ms.wf(),
                sq < 64,
                51 <= shift < 64,
                vec@.len() == 1u64 << ((64 - shift) as u64),
                forall|i: int| 0 <= i < vec@.len() ==> vec@[i] == 0u64,
                found ==> magic_ok(ms, sq as int, bishop, ret_mag, ret_vec@),
                found ==> ret_mag.shift + initial_width >= 64,
                shift + initial_width >= 64,
                stop == false,
            ensures
                found,
                magic_ok(ms, sq as int, bishop, ret_mag, ret_vec@),
                ret_mag.shift + initial_width >= 64,
            decreases 0xFFFF_FFFF_FFFF_FFFFu64 - tries,
        {
            if tries == 0xFFFF_FFFF_FFFF_FFFFu64 {
                if found {
                    break ;
                }
                return Err(MagicSearchError::NoMagicFound);
            }
            let mag = Magic { num: rng.next_sparse(), shift };

            // the deadline is polled once per candidate and only takes
            // effect once a wider magic is already in hand
            let nowt = now_millis();
            let dt = if nowt >= start_time {
                nowt - start_time
            } else {
                0
            };
            if dt > d_millis && found {
                stop = true;
                break ;
            }

            if check_mag(ms, &mag, &mut vec, sq, bishop) {
                found = true;
                ret_mag = mag;
                ret_vec = vec;
                break ;
            }
            tries += 1;
        }
        width = width - 1;
    }
    Ok((ret_mag, ret_vec))
}

/// Finds a bishop magic for `sq` within the time budget, in milliseconds.
pub fn find_bmag(ms: &masks::Lookup, sq: Square, d_millis: u64) -> (ret: Result<
    (Magic, Vec<Bitboard>),
    MagicSearchError,
>)
    requires
        ms.wf(),
        sq < 64,
    ensures
        ret matches Ok(p) ==> magic_ok(ms, sq as int, true, p.0, p.1@) && p.0.shift >= 54,
{
    find_mag(ms, sq, d_millis, true)
}

/// Finds a rook magic for `sq` within the time budget, in milliseconds.
pub fn find_rmag(ms: &masks::Lookup, sq: Square, d_millis: u64) -> (ret: Result<
    (Magic, Vec<Bitboard>),
    MagicSearchError,
>)
    requires
        ms.wf(),
        sq < 64,
    ensures
        ret matches Ok(p) ==> magic_ok(ms, sq as int, false, p.0, p.1@) && p.0.shift >= 51,
{
    find_mag(ms, sq, d_millis, false)
}

} // verus!
