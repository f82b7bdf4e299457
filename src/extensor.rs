//! Elements of the exterior algebra over the integers modulo 2^64.
//!
//! An extensor is a formal sum of basis blades `c_B e_B`, kept as a list of
//! terms sorted by the mask of `B`, with no zero coefficient. Coefficients are
//! `i64` and combine with wrapping arithmetic, so every operation is total.

pub use crate::bitvec::BitVec;
use crate::bitvec::{ascending, lemma_positions, positions};
use vstd::arithmetic::mul::lemma_mul_strict_inequality;
use vstd::arithmetic::power2::pow2;
use vstd::prelude::*;

verus! {

/// Terms sorted strictly by basis mask, with no zero coefficient.
pub open spec fn canonical(s: Seq<(BitVec, i64)>) -> bool {
    &&& forall|a: int, b: int| 0 <= a < b < s.len() ==> s[a].0.bits < s[b].0.bits
    &&& forall|a: int| 0 <= a < s.len() ==> s[a].1 != 0
}

/// Every basis mask of `s` is above `x`.
pub open spec fn keys_above(s: Seq<(BitVec, i64)>, x: int) -> bool {
    forall|a: int| 0 <= a < s.len() ==> s[a].0.bits > x
}

/// The coefficient of basis `b` in `s` (0 when absent).
pub open spec fn coef(s: Seq<(BitVec, i64)>, b: u32) -> i64
    decreases s.len(),
{
    if s.len() == 0 {
        0
    } else if s.last().0.bits == b {
        s.last().1
    } else {
        coef(s.drop_last(), b)
    }
}

/// Sum of two canonical term lists: coefficients on the same basis add, and a
/// sum that vanishes drops out.
pub open spec fn merge(a: Seq<(BitVec, i64)>, b: Seq<(BitVec, i64)>) -> Seq<(BitVec, i64)>
    decreases a.len() + b.len(),
{
    if a.len() == 0 {
        b
    } else if b.len() == 0 {
        a
    } else if a[0].0.bits < b[0].0.bits {
        seq![a[0]] + merge(a.drop_first(), b)
    } else if b[0].0.bits < a[0].0.bits {
        seq![b[0]] + merge(a, b.drop_first())
    } else {
        let c = a[0].1.wrapping_add(b[0].1);
        if c == 0 {
            merge(a.drop_first(), b.drop_first())
        } else {
            seq![(a[0].0, c)] + merge(a.drop_first(), b.drop_first())
        }
    }
}

/// The single term `c e_b`, or nothing when `c` is zero.
pub open spec fn single(b: BitVec, c: i64) -> Seq<(BitVec, i64)> {
    if c == 0 {
        Seq::empty()
    } else {
        seq![(b, c)]
    }
}

/// How many entries of `s` are below `x`.
pub open spec fn count_below(s: Seq<int>, x: int) -> nat
    decreases s.len(),
{
    if s.len() == 0 {
        0
    } else {
        count_below(s.drop_last(), x) + if s.last() < x {
            1nat
        } else {
            0nat
        }
    }
}

/// Number of pairs `(a, b)` with `a` in `sa`, `b` in `sb` and `b < a`: the
/// adjacent swaps that sort `sa` followed by `sb`.
pub open spec fn inversions(sa: Seq<int>, sb: Seq<int>) -> nat
    decreases sa.len(),
{
    if sa.len() == 0 {
        0
    } else {
        inversions(sa.drop_last(), sb) + count_below(sb, sa.last())
    }
}

/// Sign of the permutation that sorts the indices of `a` followed by those of `b`.
pub open spec fn sign(a: u32, b: u32) -> i64 {
    if inversions(positions(a, 32), positions(b, 32)) % 2 == 0 {
        1
    } else {
        -1i64
    }
}

/// The two sets share no index.
pub open spec fn disjoint(a: BitVec, b: BitVec) -> bool {
    forall|i: int| 0 <= i < 32 ==> !(a.has(i) && b.has(i))
}

/// Wedge product of two terms: zero when the bases meet, else the union with
/// the sign of the merge.
pub open spec fn term_product(s: (BitVec, i64), t: (BitVec, i64)) -> Seq<(BitVec, i64)> {
    if !disjoint(s.0, t.0) {
        Seq::empty()
    } else {
        single(BitVec { bits: s.0.bits ^ t.0.bits }, sign(s.0.bits, t.0.bits).wrapping_mul(s.1).wrapping_mul(t.1))
    }
}

/// `acc` plus the products of the term `t` with each term of `ys`, in order.
pub open spec fn wedge_term(acc: Seq<(BitVec, i64)>, t: (BitVec, i64), ys: Seq<(BitVec, i64)>) -> Seq<(BitVec, i64)>
    decreases ys.len(),
{
    if ys.len() == 0 {
        acc
    } else {
        merge(wedge_term(acc, t, ys.drop_last()), term_product(t, ys.last()))
    }
}

/// Wedge product `xs ∧ ys`: the sum over all pairs of terms of their products.
pub open spec fn wedge(xs: Seq<(BitVec, i64)>, ys: Seq<(BitVec, i64)>) -> Seq<(BitVec, i64)>
    decreases xs.len(),
{
    if xs.len() == 0 {
        Seq::empty()
    } else {
        wedge_term(wedge(xs.drop_last(), ys), xs.last(), ys)
    }
}

/// Every coefficient multiplied by `c`; products that vanish drop out.
pub open spec fn scale_terms(s: Seq<(BitVec, i64)>, c: i64) -> Seq<(BitVec, i64)>
    decreases s.len(),
{
    if s.len() == 0 {
        Seq::empty()
    } else {
        let rest = scale_terms(s.drop_last(), c);
        let v = s.last().1.wrapping_mul(c);
        if v == 0 {
            rest
        } else {
            rest.push((s.last().0, v))
        }
    }
}

/// Every basis index translated by `k`.
pub open spec fn shift_terms(s: Seq<(BitVec, i64)>, k: nat) -> Seq<(BitVec, i64)> {
    s.map_values(|t: (BitVec, i64)| (BitVec { bits: (t.0.bits * pow2(k)) as u32 }, t.1))
}

/// Every basis of `s` stays inside the width after a shift by `k`.
pub open spec fn fits_shift(s: Seq<(BitVec, i64)>, k: nat) -> bool {
    forall|a: int| 0 <= a < s.len() ==> (s[a].0.bits as nat) * pow2(k) <= u32::MAX
}

/// The extensor `Σ cs[i] e_{bs[i]}` over the first `n` listed terms.
pub open spec fn from_lists(cs: Seq<i64>, bs: Seq<Vec<u8>>, n: int) -> Seq<(BitVec, i64)>
    decreases n,
{
    if n <= 0 {
        Seq::empty()
    } else {
        merge(from_lists(cs, bs, n - 1), single(BitVec { bits: crate::bitvec::mask_of(bs[n - 1]@) }, cs[n - 1]))
    }
}

/// `merge` keeps lists canonical, and keeps a lower bound on their masks.
pub proof fn lemma_merge(a: Seq<(BitVec, i64)>, b: Seq<(BitVec, i64)>, x: int)
    requires
        canonical(a),
        canonical(b),
        keys_above(a, x),
        keys_above(b, x),
    ensures
        canonical(merge(a, b)),
        keys_above(merge(a, b), x),
    decreases a.len() + b.len(),
{
    if a.len() == 0 || b.len() == 0 {
    } else if a[0].0.bits < b[0].0.bits {
        lemma_merge(a.drop_first(), b, a[0].0.bits as int);
        let r = merge(a.drop_first(), b);
        assert(merge(a, b) == seq![a[0]] + r);
    } else if b[0].0.bits < a[0].0.bits {
        lemma_merge(a, b.drop_first(), b[0].0.bits as int);
        let r = merge(a, b.drop_first());
        assert(merge(a, b) == seq![b[0]] + r);
    } else {
        lemma_merge(a.drop_first(), b.drop_first(), a[0].0.bits as int);
        lemma_merge(a.drop_first(), b.drop_first(), x);
    }
}

/// `merge` keeps an upper bound on the masks.
pub proof fn lemma_merge_below(a: Seq<(BitVec, i64)>, b: Seq<(BitVec, i64)>, y: int)
    requires
        forall|q: int| 0 <= q < a.len() ==> a[q].0.bits < y,
        forall|q: int| 0 <= q < b.len() ==> b[q].0.bits < y,
    ensures
        forall|q: int| 0 <= q < merge(a, b).len() ==> merge(a, b)[q].0.bits < y,
    decreases a.len() + b.len(),
{
    if a.len() == 0 || b.len() == 0 {
    } else if a[0].0.bits < b[0].0.bits {
        lemma_merge_below(a.drop_first(), b, y);
        let r = merge(a.drop_first(), b);
        assert(merge(a, b) == seq![a[0]] + r);
        assert forall|q: int| 0 <= q < merge(a, b).len() implies merge(a, b)[q].0.bits < y by {
            if q > 0 {
                assert(merge(a, b)[q] == r[q - 1]);
            }
        }
    } else if b[0].0.bits < a[0].0.bits {
        lemma_merge_below(a, b.drop_first(), y);
        let r = merge(a, b.drop_first());
        assert(merge(a, b) == seq![b[0]] + r);
        assert forall|q: int| 0 <= q < merge(a, b).len() implies merge(a, b)[q].0.bits < y by {
            if q > 0 {
                assert(merge(a, b)[q] == r[q - 1]);
            }
        }
    } else {
        lemma_merge_below(a.drop_first(), b.drop_first(), y);
        let r = merge(a.drop_first(), b.drop_first());
        let c = a[0].1.wrapping_add(b[0].1);
        if c != 0 {
            assert(merge(a, b) == seq![(a[0].0, c)] + r);
            assert forall|q: int| 0 <= q < merge(a, b).len() implies merge(a, b)[q].0.bits < y by {
                if q > 0 {
                    assert(merge(a, b)[q] == r[q - 1]);
                }
            }
        }
    }
}

/// Scaling keeps lists canonical and never adds a basis.
pub proof fn lemma_scale(s: Seq<(BitVec, i64)>, c: i64, y: int)
    requires
        canonical(s),
        forall|a: int| 0 <= a < s.len() ==> s[a].0.bits < y,
    ensures
        canonical(scale_terms(s, c)),
        forall|a: int| 0 <= a < scale_terms(s, c).len() ==> scale_terms(s, c)[a].0.bits < y,
    decreases s.len(),
{
    if s.len() > 0 {
        lemma_scale(s.drop_last(), c, s.last().0.bits as int);
        lemma_scale(s.drop_last(), c, y);
    }
}

/// Shifting keeps lists canonical.
pub proof fn lemma_shift(s: Seq<(BitVec, i64)>, k: nat)
    requires
        canonical(s),
        fits_shift(s, k),
    ensures
        canonical(shift_terms(s, k)),
        shift_terms(s, k).len() == s.len(),
{
    let r = shift_terms(s, k);
    assert forall|a: int, b: int| 0 <= a < b < r.len() implies r[a].0.bits < r[b].0.bits by {
        vstd::arithmetic::power2::lemma_pow2_pos(k);
        lemma_mul_strict_inequality(s[a].0.bits as int, s[b].0.bits as int, pow2(k) as int);
    }
}

/// The number of entries below `x` of an ascending list is the length of
/// the prefix below `x`.
pub proof fn lemma_count_below(s: Seq<int>, x: int, j: int)
    requires
        forall|a: int, b: int| 0 <= a < b < s.len() ==> s[a] <= s[b],
        0 <= j <= s.len(),
        forall|q: int| 0 <= q < j ==> s[q] < x,
        j == s.len() || s[j] >= x,
    ensures
        count_below(s, x) == j,
    decreases s.len(),
{
    if s.len() > 0 {
        let d = s.drop_last();
        if j == s.len() {
            lemma_count_below(d, x, j - 1);
        } else {
            assert(s.last() >= s[j]);
            lemma_count_below(d, x, j);
        }
    }
}

/// The two lists, both non-decreasing, merged in order; on a tie the entry
/// of `a` comes first.
pub open spec fn merge_sorted(a: Seq<u8>, b: Seq<u8>) -> Seq<u8>
    decreases a.len() + b.len(),
{
    if a.len() == 0 {
        b
    } else if b.len() == 0 {
        a
    } else if b[0] < a[0] {
        seq![b[0]] + merge_sorted(a, b.drop_first())
    } else {
        seq![a[0]] + merge_sorted(a.drop_first(), b)
    }
}

/// A non-decreasing list.
pub open spec fn nondecreasing(s: Seq<u8>) -> bool {
    forall|p: int, q: int| 0 <= p < q < s.len() ==> s[p] <= s[q]
}

/// The entries as integers.
pub open spec fn as_ints(s: Seq<u8>) -> Seq<int> {
    s.map_values(|x: u8| x as int)
}

/// Decimal digits of `v`, most significant first.
pub open spec fn digits(v: nat) -> Seq<u8>
    decreases v,
{
    if v < 10 {
        seq![(48 + v) as u8]
    } else {
        digits(v / 10).push((48 + v % 10) as u8)
    }
}

/// Decimal text of a coefficient, with a leading `-` when negative.
pub open spec fn int_text(c: int) -> Seq<u8> {
    if c < 0 {
        seq![45u8] + digits((-c) as nat)
    } else {
        digits(c as nat)
    }
}

/// The text of a basis: `e` and the index for each index, joined by `^`.
pub open spec fn basis_text(p: Seq<int>) -> Seq<u8>
    decreases p.len(),
{
    if p.len() == 0 {
        Seq::empty()
    } else if p.len() == 1 {
        seq![101u8] + digits(p[0] as nat)
    } else {
        basis_text(p.drop_last()) + seq![94u8, 101u8] + digits(p.last() as nat)
    }
}

/// The text of a term: its coefficient, then a space and its basis unless
/// the basis is empty.
pub open spec fn term_text(t: (BitVec, i64)) -> Seq<u8> {
    if positions(t.0.bits, 32).len() == 0 {
        int_text(t.1 as int)
    } else {
        int_text(t.1 as int) + seq![32u8] + basis_text(positions(t.0.bits, 32))
    }
}

/// The text of an extensor: its terms joined by ` + `, or `0`.
pub open spec fn text(s: Seq<(BitVec, i64)>) -> Seq<u8>
    decreases s.len(),
{
    if s.len() == 0 {
        seq![48u8]
    } else if s.len() == 1 {
        term_text(s[0])
    } else {
        text(s.drop_last()) + seq![32u8, 43u8, 32u8] + term_text(s.last())
    }
}

/// Appends the decimal digits of `v`.
fn push_digits(out: &mut Vec<u8>, v: u64)
    ensures
        final(out)@ == old(out)@ + digits(v as nat),
    decreases v,
{
    if v < 10 {
        out.push((48 + v) as u8);
        assert(final(out)@ =~= old(out)@ + digits(v as nat));
    } else {
        push_digits(out, v / 10);
        out.push((48 + v % 10) as u8);
        assert(final(out)@ =~= old(out)@ + digits(v as nat));
    }
}

/// Appends the decimal text of `c`.
fn push_int(out: &mut Vec<u8>, c: i64)
    ensures
        final(out)@ == old(out)@ + int_text(c as int),
{
    if c < 0 {
        out.push(45u8);
        let m = (-(c as i128)) as u64;
        push_digits(out, m);
        assert(final(out)@ =~= old(out)@ + int_text(c as int));
    } else {
        push_digits(out, c as u64);
    }
}

/// An extensor with integer coefficients.
#[derive(Debug)]
pub struct ExTensor {
    terms: Vec<(BitVec, i64)>,
}

impl View for ExTensor {
    type V = Seq<(BitVec, i64)>;

    closed spec fn view(&self) -> Seq<(BitVec, i64)> {
        self.terms@
    }
}

impl ExTensor {
    #[verifier::type_invariant]
    closed spec fn inv(self) -> bool {
        canonical(self.terms@)
    }

    /// The empty extensor, the additive zero.
    pub fn zero() -> (r: ExTensor)
        ensures
            r@ == Seq::<(BitVec, i64)>::empty(),
    {
        ExTensor { terms: Vec::new() }
    }

    /// Whether the extensor is zero.
    pub fn is_zero(&self) -> (r: bool)
        ensures
            r == (self@.len() == 0),
    {
        self.terms.len() == 0
    }

    /// The stored coefficients, in basis order.
    pub fn coeffs(&self) -> (r: Vec<i64>)
        ensures
            r@ == self@.map_values(|t: (BitVec, i64)| t.1),
    {
        let mut res: Vec<i64> = Vec::new();
        let mut i: usize = 0;
        while i < self.terms.len()
            invariant
                i <= self.terms.len(),
                res@ == self@.subrange(0, i as int).map_values(|t: (BitVec, i64)| t.1),
            decreases self.terms.len() - i,
        {
            res.push(self.terms[i].1);
            i = i + 1;
            assert(res@ =~= self@.subrange(0, i as int).map_values(|t: (BitVec, i64)| t.1));
        }
        assert(self@.subrange(0, i as int) =~= self@);
        res
    }

    /// The stored terms, in basis order.
    pub fn terms(&self) -> (r: &Vec<(BitVec, i64)>)
        ensures
            r@ == self@,
    {
        &self.terms
    }

    /// The coefficient of basis `b` (0 when absent).
    pub fn coeff_of(&self, b: &BitVec) -> (r: i64)
        ensures
            r == coef(self@, b.bits),
    {
        let mut i: usize = self.terms.len();
        assert(self@.subrange(0, i as int) =~= self@);
        while i > 0
            invariant
                i <= self.terms.len(),
                coef(self@, b.bits) == coef(self@.subrange(0, i as int), b.bits),
            decreases i,
        {
            let ghost s = self@.subrange(0, i as int);
            assert(s.drop_last() =~= self@.subrange(0, i - 1));
            if self.terms[i - 1].0.bits == b.bits {
                return self.terms[i - 1].1;
            }
            i = i - 1;
        }
        0
    }

    /// A copy holding the same terms.
    pub fn duplicate(&self) -> (r: ExTensor)
        ensures
            r@ == self@,
    {
        proof {
            use_type_invariant(self);
        }
        let mut res: Vec<(BitVec, i64)> = Vec::new();
        let mut i: usize = 0;
        while i < self.terms.len()
            invariant
                i <= self.terms.len(),
                res@ == self@.subrange(0, i as int),
            decreases self.terms.len() - i,
        {
            res.push(self.terms[i]);
            i = i + 1;
            assert(res@ =~= self@.subrange(0, i as int));
        }
        assert(self@.subrange(0, i as int) =~= self@);
        ExTensor { terms: res }
    }

    /// The extensor of one term `c e_b` (zero when `c` is 0).
    pub fn monomial(b: BitVec, c: i64) -> (r: ExTensor)
        ensures
            r@ == single(b, c),
    {
        if c == 0 {
            ExTensor::zero()
        } else {
            ExTensor { terms: vec![(b, c)] }
        }
    }

    /// Builds `Σ coeffs[i] e_{basis[i]}`; terms on the same basis add up and
    /// zero sums drop out.
    pub fn new(coeffs: &[i64], basis: &[Vec<u8>]) -> (r: ExTensor)
        requires
            coeffs.len() == basis.len(),
            forall|i: int, q: int|
                0 <= i < basis.len() && 0 <= q < basis[i].len() ==> basis[i][q] < 32,
        ensures
            r@ == from_lists(coeffs@, basis@, basis.len() as int),
    {
        let mut acc = ExTensor::zero();
        let mut i: usize = 0;
        while i < basis.len()
            invariant
                i <= basis.len(),
                coeffs.len() == basis.len(),
                forall|a: int, q: int|
                    0 <= a < basis.len() && 0 <= q < basis[a].len() ==> basis[a][q] < 32,
                acc@ == from_lists(coeffs@, basis@, i as int),
            decreases basis.len() - i,
        {
            let b = BitVec::from(&basis[i]);
            let t = ExTensor::monomial(b, coeffs[i]);
            acc = acc.add(&t);
            i = i + 1;
        }
        acc
    }

    /// The sum of two extensors.
    pub fn add(&self, o: &ExTensor) -> (r: ExTensor)
        ensures
            r@ == merge(self@, o@),
    {
        proof {
            use_type_invariant(self);
            use_type_invariant(o);
        }
        let a = &self.terms;
        let b = &o.terms;
        let mut out: Vec<(BitVec, i64)> = Vec::new();
        let mut i: usize = 0;
        let mut j: usize = 0;
        assert(a@.subrange(0, a.len() as int) =~= a@);
        assert(b@.subrange(0, b.len() as int) =~= b@);
        assert(out@ + merge(a@, b@) =~= merge(a@, b@));
        while i < a.len() || j < b.len()
            invariant
                i <= a.len(),
                j <= b.len(),
                out@ + merge(a@.subrange(i as int, a.len() as int), b@.subrange(j as int, b.len() as int))
                    == merge(a@, b@),
            decreases a.len() + b.len() - i - j,
        {
            let ghost ra = a@.subrange(i as int, a.len() as int);
            let ghost rb = b@.subrange(j as int, b.len() as int);
            if i == a.len() {
                assert(merge(ra, rb) == rb);
                assert(rb =~= seq![b[j as int]] + b@.subrange(j + 1, b.len() as int));
                out.push(b[j]);
                j = j + 1;
                assert(out@ + merge(a@.subrange(i as int, a.len() as int), b@.subrange(j as int, b.len() as int))
                    =~= merge(a@, b@));
            } else if j == b.len() {
                assert(merge(ra, rb) == ra);
                assert(ra =~= seq![a[i as int]] + a@.subrange(i + 1, a.len() as int));
                out.push(a[i]);
                i = i + 1;
                assert(out@ + merge(a@.subrange(i as int, a.len() as int), b@.subrange(j as int, b.len() as int))
                    =~= merge(a@, b@));
            } else {
                assert(ra.drop_first() =~= a@.subrange(i + 1, a.len() as int));
                assert(rb.drop_first() =~= b@.subrange(j + 1, b.len() as int));
                let ta = a[i];
                let tb = b[j];
                if ta.0.bits < tb.0.bits {
                    out.push(ta);
                    i = i + 1;
                } else if tb.0.bits < ta.0.bits {
                    out.push(tb);
                    j = j + 1;
                } else {
                    let c = ta.1.wrapping_add(tb.1);
                    if c != 0 {
                        out.push((ta.0, c));
                    }
                    i = i + 1;
                    j = j + 1;
                }
                assert(out@ + merge(a@.subrange(i as int, a.len() as int), b@.subrange(j as int, b.len() as int))
                    =~= merge(a@, b@));
            }
        }
        assert(a@.subrange(i as int, a.len() as int) =~= Seq::<(BitVec, i64)>::empty());
        assert(b@.subrange(j as int, b.len() as int) =~= Seq::<(BitVec, i64)>::empty());
        assert(out@ =~= merge(a@, b@));
        proof {
            lemma_merge(a@, b@, -1);
        }
        ExTensor { terms: out }
    }

    /// Sign of the wedge `e_a ∧ e_b` for disjoint `a`, `b`: +1 when sorting
    /// the indices of `a` followed by those of `b` takes an even number of
    /// adjacent swaps, else -1. Two monotone cursors walk the ordered indices.
    pub fn get_sign(a: &BitVec, b: &BitVec) -> (r: i64)
        ensures
            r == sign(a.bits, b.bits),
    {
        let ia = a.indices();
        let ib = b.indices();
        let ghost pa = positions(a.bits, 32);
        let ghost pb = positions(b.bits, 32);
        proof {
            lemma_positions(a.bits, 32);
            lemma_positions(b.bits, 32);
        }
        assert(ia@.len() == pa.len());
        assert(ib@.len() == pb.len());
        assert(forall|q: int| 0 <= q < ia@.len() ==> ia@[q] as int == pa[q]);
        assert(forall|q: int| 0 <= q < ib@.len() ==> ib@[q] as int == pb[q]);
        let mut odd = false;
        let mut i: usize = 0;
        let mut j: usize = 0;
        while i < ia.len()
            invariant
                ia@.len() == pa.len(),
                ib@.len() == pb.len(),
                forall|q: int| 0 <= q < ia@.len() ==> ia@[q] as int == pa[q],
                forall|q: int| 0 <= q < ib@.len() ==> ib@[q] as int == pb[q],
                ascending(pa),
                ascending(pb),
                i <= ia.len(),
                j <= ib.len(),
                i < ia.len() ==> forall|q: int| 0 <= q < j ==> pb[q] < pa[i as int],
                odd == (inversions(pa.subrange(0, i as int), pb) % 2 == 1),
            decreases ia.len() - i,
        {
            while j < ib.len() && ib[j] < ia[i]
                invariant
                    ib@.len() == pb.len(),
                    forall|q: int| 0 <= q < ia@.len() ==> ia@[q] as int == pa[q],
                    forall|q: int| 0 <= q < ib@.len() ==> ib@[q] as int == pb[q],
                    i < ia.len(),
                    j <= ib.len(),
                    forall|q: int| 0 <= q < j ==> pb[q] < pa[i as int],
                decreases ib.len() - j,
            {
                j = j + 1;
            }
            proof {
                lemma_count_below(pb, pa[i as int], j as int);
                assert(pa.subrange(0, i + 1).drop_last() =~= pa.subrange(0, i as int));
            }
            if j % 2 == 1 {
                odd = !odd;
            }
            i = i + 1;
        }
        assert(pa.subrange(0, i as int) =~= pa);
        if odd {
            -1
        } else {
            1
        }
    }

    /// Merges two sorted index lists with two monotone cursors, and gives the
    /// sign of the permutation that sorts `a` followed by `b`.
    pub fn get_sign_and_ord_basis(a: &Vec<u8>, b: &Vec<u8>) -> (r: (i64, Vec<u8>))
        requires
            nondecreasing(a@),
            nondecreasing(b@),
        ensures
            r.1@ == merge_sorted(a@, b@),
            r.0 == if inversions(as_ints(a@), as_ints(b@)) % 2 == 0 {
                1i64
            } else {
                -1i64
            },
    {
        let ghost ia = as_ints(a@);
        let ghost ib = as_ints(b@);
        let mut out: Vec<u8> = Vec::new();
        let mut odd = false;
        let mut i: usize = 0;
        let mut j: usize = 0;
        assert(a@.subrange(0, a.len() as int) =~= a@);
        assert(b@.subrange(0, b.len() as int) =~= b@);
        assert(out@ + merge_sorted(a@, b@) =~= merge_sorted(a@, b@));
        assert(ia.subrange(0, 0) =~= Seq::<int>::empty());
        while i < a.len() || j < b.len()
            invariant
                nondecreasing(a@),
                nondecreasing(b@),
                ia == as_ints(a@),
                ib == as_ints(b@),
                i <= a.len(),
                j <= b.len(),
                out@ + merge_sorted(a@.subrange(i as int, a.len() as int), b@.subrange(j as int, b.len() as int))
                    == merge_sorted(a@, b@),
                i < a.len() ==> forall|q: int| 0 <= q < j ==> b@[q] < a@[i as int],
                odd == (inversions(ia.subrange(0, i as int), ib) % 2 == 1),
            decreases a.len() + b.len() - i - j,
        {
            let ghost ra = a@.subrange(i as int, a.len() as int);
            let ghost rb = b@.subrange(j as int, b.len() as int);
            if j < b.len() && (i == a.len() || b[j] < a[i]) {
                assert(rb.drop_first() =~= b@.subrange(j + 1, b.len() as int));
                if i == a.len() {
                    assert(ra =~= Seq::<u8>::empty());
                    assert(rb =~= seq![b@[j as int]] + rb.drop_first());
                }
                out.push(b[j]);
                j = j + 1;
                assert(out@ + merge_sorted(a@.subrange(i as int, a.len() as int), b@.subrange(j as int, b.len() as int))
                    =~= merge_sorted(a@, b@));
            } else {
                assert(ra.drop_first() =~= a@.subrange(i + 1, a.len() as int));
                if j == b.len() {
                    assert(rb =~= Seq::<u8>::empty());
                    assert(ra =~= seq![a@[i as int]] + ra.drop_first());
                }
                proof {
                    lemma_count_below(ib, ia[i as int], j as int);
                    assert(ia.subrange(0, i + 1).drop_last() =~= ia.subrange(0, i as int));
                }
                if j % 2 == 1 {
                    odd = !odd;
                }
                out.push(a[i]);
                i = i + 1;
                assert(out@ + merge_sorted(a@.subrange(i as int, a.len() as int), b@.subrange(j as int, b.len() as int))
                    =~= merge_sorted(a@, b@));
            }
        }
        assert(a@.subrange(i as int, a.len() as int) =~= Seq::<u8>::empty());
        assert(b@.subrange(j as int, b.len() as int) =~= Seq::<u8>::empty());
        assert(out@ =~= merge_sorted(a@, b@));
        assert(ia.subrange(0, i as int) =~= ia);
        if odd {
            (-1, out)
        } else {
            (1, out)
        }
    }

    /// Wedge product of two single terms.
    fn product_of_terms(s: (BitVec, i64), t: (BitVec, i64)) -> (r: ExTensor)
        ensures
            r@ == term_product(s, t),
    {
        let meet = s.0.and(&t.0);
        if meet.any() {
            ExTensor::zero()
        } else {
            let sg = ExTensor::get_sign(&s.0, &t.0);
            let c = sg.wrapping_mul(s.1).wrapping_mul(t.1);
            ExTensor::monomial(s.0.xor(&t.0), c)
        }
    }

    /// The wedge product `self ∧ o`.
    pub fn mul(&self, o: &ExTensor) -> (r: ExTensor)
        ensures
            r@ == wedge(self@, o@),
    {
        let xs = &self.terms;
        let ys = &o.terms;
        let mut acc = ExTensor::zero();
        let mut i: usize = 0;
        while i < xs.len()
            invariant
                i <= xs.len(),
                acc@ == wedge(xs@.subrange(0, i as int), ys@),
            decreases xs.len() - i,
        {
            let ghost before = acc@;
            let mut j: usize = 0;
            while j < ys.len()
                invariant
                    i < xs.len(),
                    j <= ys.len(),
                    acc@ == wedge_term(before, xs@[i as int], ys@.subrange(0, j as int)),
                decreases ys.len() - j,
            {
                let p = ExTensor::product_of_terms(xs[i], ys[j]);
                acc = acc.add(&p);
                assert(ys@.subrange(0, j + 1).drop_last() =~= ys@.subrange(0, j as int));
                j = j + 1;
            }
            assert(ys@.subrange(0, j as int) =~= ys@);
            assert(xs@.subrange(0, i + 1).drop_last() =~= xs@.subrange(0, i as int));
            i = i + 1;
        }
        assert(xs@.subrange(0, i as int) =~= xs@);
        acc
    }

    /// Every coefficient multiplied by `c`.
    pub fn scale(&self, c: i64) -> (r: ExTensor)
        ensures
            r@ == scale_terms(self@, c),
    {
        proof {
            use_type_invariant(self);
        }
        let mut res: Vec<(BitVec, i64)> = Vec::new();
        let mut i: usize = 0;
        while i < self.terms.len()
            invariant
                i <= self.terms.len(),
                res@ == scale_terms(self@.subrange(0, i as int), c),
            decreases self.terms.len() - i,
        {
            let t = self.terms[i];
            let v = t.1.wrapping_mul(c);
            assert(self@.subrange(0, i + 1).drop_last() =~= self@.subrange(0, i as int));
            if v != 0 {
                res.push((t.0, v));
            }
            i = i + 1;
        }
        assert(self@.subrange(0, i as int) =~= self@);
        proof {
            lemma_scale(self@, c, u32::MAX + 1);
        }
        ExTensor { terms: res }
    }

    /// The difference `self - o`.
    pub fn sub(&self, o: &ExTensor) -> (r: ExTensor)
        ensures
            r@ == merge(self@, scale_terms(o@, -1i64)),
    {
        let neg = o.scale(-1);
        self.add(&neg)
    }

    /// Every basis index translated by `k` (`e_i` becomes `e_{i+k}`).
    pub fn shift_right(&self, k: usize) -> (r: ExTensor)
        requires
            k < 32,
            fits_shift(self@, k as nat),
        ensures
            r@ == shift_terms(self@, k as nat),
    {
        proof {
            use_type_invariant(self);
        }
        let mut res: Vec<(BitVec, i64)> = Vec::new();
        let mut i: usize = 0;
        while i < self.terms.len()
            invariant
                i <= self.terms.len(),
                k < 32,
                fits_shift(self@, k as nat),
                res@ == shift_terms(self@.subrange(0, i as int), k as nat),
            decreases self.terms.len() - i,
        {
            let mut b = self.terms[i].0;
            b.shift_right(k);
            res.push((b, self.terms[i].1));
            i = i + 1;
            assert(res@ =~= shift_terms(self@.subrange(0, i as int), k as nat));
        }
        assert(self@.subrange(0, i as int) =~= self@);
        proof {
            lemma_shift(self@, k as nat);
        }
        ExTensor { terms: res }
    }

    /// The lift `self ∧ shift_right(self, k)`.
    pub fn lift(&self, k: usize) -> (r: ExTensor)
        requires
            k < 32,
            fits_shift(self@, k as nat),
        ensures
            r@ == wedge(self@, shift_terms(self@, k as nat)),
    {
        let shifted = self.shift_right(k);
        self.mul(&shifted)
    }

    /// A readable text of the extensor, such as `2 e1^e3 + -5 e2`; the zero
    /// extensor reads `0`.
    pub fn to_text(&self) -> (r: Vec<u8>)
        ensures
            r@ == text(self@),
    {
        let mut out: Vec<u8> = Vec::new();
        if self.terms.len() == 0 {
            out.push(48u8);
            assert(out@ =~= text(self@));
            return out;
        }
        let mut i: usize = 0;
        while i < self.terms.len()
            invariant
                i <= self.terms.len(),
                self.terms.len() > 0,
                i == 0 ==> out@ == Seq::<u8>::empty(),
                i > 0 ==> out@ == text(self@.subrange(0, i as int)),
            decreases self.terms.len() - i,
        {
            let ghost before = out@;
            if i > 0 {
                out.push(32u8);
                out.push(43u8);
                out.push(32u8);
            }
            let t = self.terms[i];
            push_int(&mut out, t.1);
            let idx = t.0.indices();
            proof {
                lemma_positions(t.0.bits, 32);
            }
            let ghost p = positions(t.0.bits, 32);
            assert(idx@.len() == p.len());
            if idx.len() > 0 {
                out.push(32u8);
                let mut q: usize = 0;
                let ghost mid = out@;
                while q < idx.len()
                    invariant
                        q <= idx.len(),
                        idx@.len() == p.len(),
                        idx@.map_values(|x: usize| x as int) == p,
                        forall|z: int| 0 <= z < p.len() ==> 0 <= #[trigger] p[z] < 32,
                        out@ == mid + basis_text(p.subrange(0, q as int)),
                    decreases idx.len() - q,
                {
                    let ghost pre = out@;
                    if q > 0 {
                        out.push(94u8);
                    }
                    out.push(101u8);
                    assert(idx@[q as int] as int == p[q as int]);
                    push_digits(&mut out, idx[q] as u64);
                    proof {
                        let sub = p.subrange(0, q + 1);
                        assert(sub.drop_last() =~= p.subrange(0, q as int));
                        assert(sub.last() == p[q as int]);
                        if q == 0 {
                            assert(sub.len() == 1);
                            assert(out@ =~= mid + basis_text(sub));
                        } else {
                            assert(out@ =~= mid + basis_text(sub));
                        }
                    }
                    q = q + 1;
                }
                assert(p.subrange(0, q as int) =~= p);
            } else {
                assert(p.len() == 0);
            }
            proof {
                let sub = self@.subrange(0, i + 1);
                assert(sub.drop_last() =~= self@.subrange(0, i as int));
                assert(sub.last() == self@[i as int]);
                if i == 0 {
                    assert(sub.len() == 1);
                    assert(out@ =~= text(sub));
                } else {
                    assert(out@ =~= text(sub));
                }
            }
            i = i + 1;
        }
        assert(self@.subrange(0, i as int) =~= self@);
        out
    }

    /// Whether two extensors hold the same terms.
    pub fn equals(&self, o: &ExTensor) -> (r: bool)
        ensures
            r == (self@ == o@),
    {
        if self.terms.len() != o.terms.len() {
            return false;
        }
        let mut i: usize = 0;
        while i < self.terms.len()
            invariant
                i <= self.terms.len(),
                self.terms.len() == o.terms.len(),
                forall|q: int| 0 <= q < i ==> self@[q] == o@[q],
            decreases self.terms.len() - i,
        {
            let s = self.terms[i];
            let t = o.terms[i];
            if s.0.bits != t.0.bits || s.1 != t.1 {
                return false;
            }
            i = i + 1;
        }
        assert(self@ =~= o@);
        true
    }
}

impl PartialEq for ExTensor {
    fn eq(&self, o: &ExTensor) -> (r: bool)
        ensures
            r == (self@ == o@),
    {
        self.equals(o)
    }
}

impl vstd::std_specs::cmp::PartialEqSpecImpl for ExTensor {
    open spec fn obeys_eq_spec() -> bool {
        true
    }

    open spec fn eq_spec(&self, o: &ExTensor) -> bool {
        self@ == o@
    }
}

} // verus!
