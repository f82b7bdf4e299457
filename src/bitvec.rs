//! Sets of basis indices in `[0, 32)`, stored as a 32-bit mask.

use vstd::arithmetic::power2::pow2;
use vstd::bits::lemma_u32_shl_is_mul;
use vstd::prelude::*;

verus! {

/// Number of basis positions a `BitVec` can hold.
pub const WIDTH: usize = 32;

/// Whether position `i` is set in the mask `m`.
pub open spec fn bit(m: u32, i: int) -> bool {
    0 <= i < 32 && (m >> (i as u32)) & 1u32 == 1u32
}

/// The positions below `n` that are set in `m`, in ascending order.
pub open spec fn positions(m: u32, n: int) -> Seq<int>
    decreases n,
{
    if n <= 0 {
        Seq::empty()
    } else if bit(m, n - 1) {
        positions(m, n - 1).push(n - 1)
    } else {
        positions(m, n - 1)
    }
}

/// Number of positions below `n` that are set in `m`.
pub open spec fn popcount(m: u32, n: int) -> nat
    decreases n,
{
    if n <= 0 {
        0
    } else {
        popcount(m, n - 1) + if bit(m, n - 1) {
            1nat
        } else {
            0nat
        }
    }
}

/// The mask with exactly the positions listed in `s` set.
pub open spec fn mask_of(s: Seq<u8>) -> u32
    decreases s.len(),
{
    if s.len() == 0 {
        0
    } else {
        mask_of(s.drop_last()) | (1u32 << (s.last() as u32))
    }
}

/// A strictly increasing sequence.
pub open spec fn ascending(s: Seq<int>) -> bool {
    forall|a: int, b: int| 0 <= a < b < s.len() ==> s[a] < s[b]
}

/// The bits of `m | (1 << t)` are those of `m` and position `t`.
pub proof fn lemma_bit_or_single(m: u32, t: u32)
    requires
        t < 32,
    ensures
        forall|i: u32|
            #![trigger (m | (1u32 << t)) >> i]
            i < 32 ==> ((((m | (1u32 << t)) >> i) & 1u32 == 1u32) <==> (((m >> i) & 1u32
                == 1u32) || i == t)),
{
    assert(forall|i: u32|
        #![trigger (m | (1u32 << t)) >> i]
        i < 32 ==> ((((m | (1u32 << t)) >> i) & 1u32 == 1u32) <==> (((m >> i) & 1u32 == 1u32)
            || i == t))) by (bit_vector)
        requires
            t < 32,
    ;
}

/// Bits of an exclusive or and of a conjunction.
pub proof fn lemma_bit_xor_and(a: u32, b: u32)
    ensures
        forall|i: u32|
            #![trigger (a ^ b) >> i]
            i < 32 ==> ((((a ^ b) >> i) & 1u32 == 1u32) <==> (((a >> i) & 1u32 == 1u32) != ((b
                >> i) & 1u32 == 1u32))),
        forall|i: u32|
            #![trigger (a & b) >> i]
            i < 32 ==> ((((a & b) >> i) & 1u32 == 1u32) <==> (((a >> i) & 1u32 == 1u32) && ((b
                >> i) & 1u32 == 1u32))),
{
    assert(forall|i: u32|
        #![trigger (a ^ b) >> i]
        i < 32 ==> ((((a ^ b) >> i) & 1u32 == 1u32) <==> (((a >> i) & 1u32 == 1u32) != ((b >> i)
            & 1u32 == 1u32)))) by (bit_vector);
    assert(forall|i: u32|
        #![trigger (a & b) >> i]
        i < 32 ==> ((((a & b) >> i) & 1u32 == 1u32) <==> (((a >> i) & 1u32 == 1u32) && ((b >> i)
            & 1u32 == 1u32)))) by (bit_vector);
}

/// `positions` lists exactly the set bits, in ascending order, all below `n`.
pub proof fn lemma_positions(m: u32, n: int)
    requires
        0 <= n <= 32,
    ensures
        ascending(positions(m, n)),
        forall|x: int| positions(m, n).contains(x) <==> (0 <= x < n && bit(m, x)),
        forall|q: int| 0 <= q < positions(m, n).len() ==> 0 <= #[trigger] positions(m, n)[q] < n,
        positions(m, n).len() <= n,
    decreases n,
{
    if n > 0 {
        lemma_positions(m, n - 1);
        let p = positions(m, n - 1);
        if bit(m, n - 1) {
            assert forall|x: int| positions(m, n).contains(x) <==> (0 <= x < n && bit(m, x)) by {
                if 0 <= x < n && bit(m, x) && x != n - 1 {
                    assert(p.contains(x));
                    let q = choose|q: int| 0 <= q < p.len() && p[q] == x;
                    assert(positions(m, n)[q] == x);
                }
                if x == n - 1 {
                    assert(positions(m, n)[p.len() as int] == x);
                }
            }
        }
    }
}

/// A set of basis indices in `[0, 32)`.
#[derive(Clone, Copy, PartialEq, Eq, Debug, Hash)]
pub struct BitVec {
    /// Bit `i` is set iff index `i` is in the set.
    pub bits: u32,
}

impl BitVec {
    /// Whether index `i` is in the set.
    pub open spec fn has(self, i: int) -> bool {
        bit(self.bits, i)
    }

    /// The set holding exactly the indices listed in `v` (duplicates allowed).
    pub fn from(v: &Vec<u8>) -> (r: BitVec)
        requires
            forall|q: int| 0 <= q < v.len() ==> v[q] < 32,
        ensures
            r.bits == mask_of(v@),
            forall|i: int| 0 <= i < 32 ==> (r.has(i) <==> v@.contains(i as u8)),
    {
        let mut bits: u32 = 0;
        let mut p: usize = 0;
        assert forall|i: u32| i < 32 implies (0u32 >> i) & 1u32 != 1u32 by {
            assert(forall|i: u32| i < 32 ==> (0u32 >> i) & 1u32 != 1u32) by (bit_vector);
        }
        while p < v.len()
            invariant
                p <= v.len(),
                forall|q: int| 0 <= q < v.len() ==> v[q] < 32,
                bits == mask_of(v@.subrange(0, p as int)),
                forall|i: int|
                    0 <= i < 32 ==> (bit(bits, i) <==> v@.subrange(0, p as int).contains(
                        i as u8,
                    )),
            decreases v.len() - p,
        {
            let t = v[p];
            proof {
                lemma_bit_or_single(bits, t as u32);
                assert forall|i: int| 0 <= i < 32 implies (#[trigger] bit(bits | (1u32 << (t as u32)), i) <==> v@.subrange(
                    0,
                    p + 1,
                ).contains(i as u8)) by {
                    let s = v@.subrange(0, p as int);
                    let iu = i as u32;
                    assert((((bits | (1u32 << (t as u32))) >> iu) & 1u32 == 1u32) <==> (((bits
                        >> iu) & 1u32 == 1u32) || iu == t as u32));
                    assert(v@.subrange(0, p + 1) =~= s.push(t));
                    if s.contains(i as u8) {
                        let q = choose|q: int| 0 <= q < s.len() && s[q] == i as u8;
                        assert(s.push(t)[q] == i as u8);
                    }
                    if s.push(t).contains(i as u8) {
                        let q = choose|q: int| 0 <= q < s.len() + 1 && s.push(t)[q] == i as u8;
                        if q < s.len() {
                            assert(s[q] == i as u8);
                        }
                    }
                    assert(s.push(t)[s.len() as int] == t);
                    assert(bit(bits, i) <==> s.contains(i as u8));
                    assert(iu == t as u32 <==> i as u8 == t);
                    assert(s.push(t).contains(i as u8) <==> (s.contains(i as u8) || i as u8 == t));
                }
            }
            assert(v@.subrange(0, p + 1).drop_last() =~= v@.subrange(0, p as int));
            bits = bits | (1u32 << (t as u32));
            p = p + 1;
        }
        assert(v@.subrange(0, v.len() as int) =~= v@);
        BitVec { bits }
    }

    /// Whether index `i` is in the set.
    pub fn get(&self, i: usize) -> (r: bool)
        requires
            i < 32,
        ensures
            r == self.has(i as int),
    {
        (self.bits >> (i as u32)) & 1u32 == 1u32
    }

    /// Translates every index by `k`: index `i` becomes `i + k`.
    pub fn shift_right(&mut self, k: usize)
        requires
            k < 32,
            (old(self).bits as nat) * pow2(k as nat) <= u32::MAX,
        ensures
            final(self).bits as nat == (old(self).bits as nat) * pow2(k as nat),
    {
        proof {
            lemma_u32_shl_is_mul(self.bits, k as u32);
        }
        self.bits = self.bits << (k as u32);
    }

    /// The number of positions, set or not.
    pub fn len(&self) -> (r: usize)
        ensures
            r == 32,
    {
        WIDTH
    }

    /// Number of indices in the set.
    pub fn count_ones(&self) -> (r: u32)
        ensures
            r == popcount(self.bits, 32),
    {
        let mut sum: u32 = 0;
        let mut i: u32 = 0;
        while i < 32
            invariant
                i <= 32,
                sum == popcount(self.bits, i as int),
                sum <= i,
            decreases 32 - i,
        {
            if (self.bits >> i) & 1u32 == 1u32 {
                sum = sum + 1;
            }
            i = i + 1;
        }
        sum
    }

    /// Whether the set is non-empty.
    pub fn any(&self) -> (r: bool)
        ensures
            r == (exists|i: int| 0 <= i < 32 && self.has(i)),
    {
        let mut i: u32 = 0;
        while i < 32
            invariant
                i <= 32,
                forall|j: int| 0 <= j < i ==> !self.has(j),
            decreases 32 - i,
        {
            if (self.bits >> i) & 1u32 == 1u32 {
                assert(self.has(i as int));
                return true;
            }
            i = i + 1;
        }
        false
    }

    /// The indices of the set in ascending order.
    pub fn indices(&self) -> (r: Vec<usize>)
        ensures
            r@.map_values(|x: usize| x as int) == positions(self.bits, 32),
    {
        let mut res: Vec<usize> = Vec::new();
        let mut i: usize = 0;
        while i < 32
            invariant
                i <= 32,
                res@.map_values(|x: usize| x as int) == positions(self.bits, i as int),
            decreases 32 - i,
        {
            if (self.bits >> (i as u32)) & 1u32 == 1u32 {
                res.push(i);
                assert(res@.map_values(|x: usize| x as int) =~= positions(self.bits, i as int).push(i as int));
            }
            i = i + 1;
        }
        res
    }

    /// The set as text: `[`, one `1` or `0` per position from 0 to 31, `]`.
    pub fn to_text(&self) -> (r: Vec<u8>)
        ensures
            r@ == seq![91u8] + Seq::new(32, |i: int| if self.has(i) {
                49u8
            } else {
                48u8
            }) + seq![93u8],
    {
        let mut out: Vec<u8> = Vec::new();
        out.push(91u8);
        let mut i: u32 = 0;
        while i < 32
            invariant
                i <= 32,
                out@ == seq![91u8] + Seq::new(i as nat, |q: int| if self.has(q) {
                    49u8
                } else {
                    48u8
                }),
            decreases 32 - i,
        {
            if (self.bits >> i) & 1u32 == 1u32 {
                out.push(49u8);
            } else {
                out.push(48u8);
            }
            i = i + 1;
            assert(out@ =~= seq![91u8] + Seq::new(i as nat, |q: int| if self.has(q) {
                49u8
            } else {
                48u8
            }));
        }
        out.push(93u8);
        out
    }

    /// The symmetric difference of two sets.
    pub fn xor(&self, o: &BitVec) -> (r: BitVec)
        ensures
            r.bits == self.bits ^ o.bits,
            forall|i: int| 0 <= i < 32 ==> (r.has(i) <==> (self.has(i) != o.has(i))),
    {
        proof {
            lemma_bit_xor_and(self.bits, o.bits);
        }
        BitVec { bits: self.bits ^ o.bits }
    }

    /// The intersection of two sets.
    pub fn and(&self, o: &BitVec) -> (r: BitVec)
        ensures
            r.bits == self.bits & o.bits,
            forall|i: int| 0 <= i < 32 ==> (r.has(i) <==> (self.has(i) && o.has(i))),
    {
        proof {
            lemma_bit_xor_and(self.bits, o.bits);
        }
        BitVec { bits: self.bits & o.bits }
    }
}

} // verus!
