//! Vertex codings, and the small numeric helpers of the counting algorithms.

use crate::bitvec::BitVec;
use crate::extensor::{canonical, fits_shift, lemma_merge, lemma_merge_below, merge, shift_terms, single, wedge, ExTensor};
use vstd::arithmetic::mul::lemma_mul_strict_inequality;
use vstd::arithmetic::power2::{lemma2_to64, lemma_pow2_adds, lemma_pow2_pos, lemma_pow2_strictly_increases, pow2};
use vstd::bits::lemma_u32_shl_is_mul;
use vstd::prelude::*;

verus! {

/// The grade-one extensor `Σ_i cs[i] e_{i+1}`, built term by term.
pub open spec fn grade_one(cs: Seq<i64>) -> Seq<(BitVec, i64)>
    decreases cs.len(),
{
    if cs.len() == 0 {
        Seq::empty()
    } else {
        merge(grade_one(cs.drop_last()), single(BitVec { bits: pow2(cs.len()) as u32 }, cs.last()))
    }
}

/// The lift of `x` by `k`: `x ∧ shift_right(x, k)`.
pub open spec fn lifted(x: Seq<(BitVec, i64)>, k: nat) -> Seq<(BitVec, i64)> {
    wedge(x, shift_terms(x, k))
}

/// `v^i` in wrapping arithmetic.
pub open spec fn pow_wrap(v: i64, i: nat) -> i64
    decreases i,
{
    if i == 0 {
        1
    } else {
        pow_wrap(v, (i - 1) as nat).wrapping_mul(v)
    }
}

/// The Vandermonde coefficients `(v^0, v^1, …, v^{k-1})`.
pub open spec fn powers(v: i64, k: nat) -> Seq<i64> {
    Seq::new(k, |i: int| pow_wrap(v, i as nat))
}

/// The lifted Vandermonde coding of `n` vertices: vertex `v` (counted from 1)
/// gets the lift by `k` of `Σ_i v^i e_{i+1}`.
pub open spec fn vandermonde(n: nat, k: nat) -> Seq<Seq<(BitVec, i64)>> {
    Seq::new(n, |v: int| lifted(grade_one(powers((v + 1) as i64, k)), k))
}

/// Every entry of `s` is +1 or -1.
pub open spec fn signs(s: Seq<i64>) -> bool {
    forall|i: int| 0 <= i < s.len() ==> s[i] == 1 || s[i] == -1
}

/// `k!`
pub open spec fn fact(k: nat) -> nat
    decreases k,
{
    if k == 0 {
        1
    } else {
        k * fact((k - 1) as nat)
    }
}

/// A non-decreasing sequence.
pub open spec fn sorted(s: Seq<u8>) -> bool {
    forall|a: int, b: int| 0 <= a < b < s.len() ==> s[a] <= s[b]
}

/// `grade_one` is canonical, with every mask below `2^(len + 1)`.
pub proof fn lemma_grade_one(cs: Seq<i64>)
    requires
        cs.len() <= 30,
    ensures
        canonical(grade_one(cs)),
        forall|q: int| 0 <= q < grade_one(cs).len() ==> (grade_one(cs)[q].0.bits as nat) < pow2(cs.len() + 1),
    decreases cs.len(),
{
    if cs.len() > 0 {
        let d = cs.drop_last();
        lemma_grade_one(d);
        lemma_pow2_strictly_increases(d.len() + 1, cs.len() + 1);
        lemma_pow2_strictly_increases(cs.len(), cs.len() + 1);
        lemma_pow2_strictly_increases(cs.len() + 1, 32);
        lemma2_to64();
        let t = single(BitVec { bits: pow2(cs.len()) as u32 }, cs.last());
        lemma_merge(grade_one(d), t, -1);
        lemma_merge_below(grade_one(d), t, pow2(cs.len() + 1) as int);
    }
}

/// A grade-one extensor with `k <= 15` terms may be lifted by `k`.
pub proof fn lemma_grade_one_fits(cs: Seq<i64>, k: nat)
    requires
        cs.len() == k,
        k <= 15,
    ensures
        fits_shift(grade_one(cs), k),
{
    lemma_grade_one(cs);
    lemma_pow2_pos(k);
    lemma_pow2_adds(k + 1, k);
    lemma2_to64();
    if 2 * k + 1 < 31 {
        lemma_pow2_strictly_increases(2 * k + 1, 31);
    }
    let g = grade_one(cs);
    assert forall|a: int| 0 <= a < g.len() implies (g[a].0.bits as nat) * pow2(k) <= u32::MAX by {
        lemma_mul_strict_inequality(g[a].0.bits as int, pow2(k + 1) as int, pow2(k) as int);
    }
}

/// The grade-one extensor `Σ_i cs[i] e_{i+1}`.
pub fn grade_one_extensor(cs: &Vec<i64>) -> (r: ExTensor)
    requires
        cs.len() <= 30,
    ensures
        r@ == grade_one(cs@),
{
    let mut acc = ExTensor::zero();
    let mut i: usize = 0;
    while i < cs.len()
        invariant
            i <= cs.len(),
            cs.len() <= 30,
            acc@ == grade_one(cs@.subrange(0, i as int)),
        decreases cs.len() - i,
    {
        proof {
            lemma_pow2_strictly_increases((i + 1) as nat, 32);
            lemma2_to64();
            lemma_u32_shl_is_mul(1u32, (i + 1) as u32);
        }
        let b = BitVec { bits: 1u32 << ((i + 1) as u32) };
        let t = ExTensor::monomial(b, cs[i]);
        acc = acc.add(&t);
        assert(cs@.subrange(0, i + 1).drop_last() =~= cs@.subrange(0, i as int));
        i = i + 1;
    }
    assert(cs@.subrange(0, i as int) =~= cs@);
    acc
}

/// Vertex `v` gets the lift by `k` of `Σ_i rows[v][i] e_{i+1}`.
pub fn lifted_coding(rows: &Vec<Vec<i64>>, k: usize) -> (r: Vec<ExTensor>)
    requires
        k <= 15,
        forall|v: int| 0 <= v < rows.len() ==> (#[trigger] rows@[v]).len() == k,
    ensures
        r.len() == rows.len(),
        forall|v: int| 0 <= v < rows.len() ==> (#[trigger] r@[v])@ == lifted(grade_one(rows@[v]@), k as nat),
{
    let mut res: Vec<ExTensor> = Vec::new();
    let mut v: usize = 0;
    while v < rows.len()
        invariant
            v <= rows.len(),
            k <= 15,
            forall|a: int| 0 <= a < rows.len() ==> (#[trigger] rows@[a]).len() == k,
            res.len() == v,
            forall|a: int| 0 <= a < v ==> (#[trigger] res@[a])@ == lifted(grade_one(rows@[a]@), k as nat),
        decreases rows.len() - v,
    {
        let x = grade_one_extensor(&rows[v]);
        proof {
            lemma_grade_one_fits(rows@[v as int]@, k as nat);
        }
        let l = x.lift(k);
        res.push(l);
        v = v + 1;
    }
    res
}

/// The Vandermonde coefficient rows `(v^0, …, v^{k-1})` for `v = 1..=n`.
pub fn vandermonde_rows(n: usize, k: usize) -> (r: Vec<Vec<i64>>)
    requires
        n <= i64::MAX,
    ensures
        r.len() == n,
        forall|v: int| 0 <= v < n ==> (#[trigger] r@[v])@ == powers((v + 1) as i64, k as nat),
{
    let mut res: Vec<Vec<i64>> = Vec::new();
    let mut v: usize = 0;
    while v < n
        invariant
            v <= n,
            n <= i64::MAX,
            res.len() == v,
            forall|a: int| 0 <= a < v ==> (#[trigger] res@[a])@ == powers((a + 1) as i64, k as nat),
        decreases n - v,
    {
        let base = (v + 1) as i64;
        let mut row: Vec<i64> = Vec::new();
        let mut c: i64 = 1;
        let mut i: usize = 0;
        while i < k
            invariant
                i <= k,
                base == (v + 1) as i64,
                c == pow_wrap(base, i as nat),
                row@ == powers(base, i as nat),
            decreases k - i,
        {
            row.push(c);
            c = c.wrapping_mul(base);
            i = i + 1;
            assert(row@ =~= powers(base, i as nat));
        }
        res.push(row);
        v = v + 1;
    }
    res
}

/// The lifted Vandermonde coding of `n` vertices for paths of `k` vertices.
pub fn create_vandermonde(n: usize, k: usize) -> (r: Vec<ExTensor>)
    requires
        k <= 15,
        n <= i64::MAX,
    ensures
        r.len() == n,
        forall|v: int| 0 <= v < n ==> (#[trigger] r@[v])@ == vandermonde(n as nat, k as nat)[v],
{
    let rows = vandermonde_rows(n, k);
    lifted_coding(&rows, k)
}

/// Relies on rand's `Uniform::from(0..2)` sampled from `thread_rng()`: the
/// draw lies in `[0, 2)`.
#[verifier::external_body]
fn draw_bit() -> (r: u8)
    ensures
        r < 2,
{
    rand::distributions::Distribution::sample(&rand::distributions::Uniform::from(0u8..2u8), &mut rand::thread_rng())
}

/// `n` rows of `k` independent uniform signs.
pub fn random_sign_rows(n: usize, k: usize) -> (r: Vec<Vec<i64>>)
    ensures
        r.len() == n,
        forall|v: int| 0 <= v < n ==> (#[trigger] r@[v])@.len() == k && signs(r@[v]@),
{
    let mut res: Vec<Vec<i64>> = Vec::new();
    let mut v: usize = 0;
    while v < n
        invariant
            v <= n,
            res.len() == v,
            forall|a: int| 0 <= a < v ==> (#[trigger] res@[a])@.len() == k && signs(res@[a]@),
        decreases n - v,
    {
        let mut row: Vec<i64> = Vec::new();
        let mut i: usize = 0;
        while i < k
            invariant
                i <= k,
                row@.len() == i,
                signs(row@),
            decreases k - i,
        {
            let b = draw_bit();
            if b == 0 {
                row.push(-1);
            } else {
                row.push(1);
            }
            i = i + 1;
        }
        res.push(row);
        v = v + 1;
    }
    res
}

/// `x` is the lift by `k` of `Σ_i s_i e_{i+1}` for some signs `s_1, …, s_k`.
pub open spec fn bernoulli_code(x: Seq<(BitVec, i64)>, k: nat) -> bool {
    exists|s: Seq<i64>| s.len() == k && signs(s) && x == #[trigger] lifted(grade_one(s), k)
}

/// A lifted Bernoulli coding of `n` vertices: vertex `v` gets the lift by `k`
/// of `Σ_i s_i e_{i+1}` for `k` random signs `s_i`.
pub fn create_bernoulli(n: usize, k: usize) -> (r: Vec<ExTensor>)
    requires
        k <= 15,
    ensures
        r.len() == n,
        forall|v: int| 0 <= v < n ==> bernoulli_code((#[trigger] r@[v])@, k as nat),
{
    let rows = random_sign_rows(n, k);
    let coding = lifted_coding(&rows, k);
    assert forall|v: int| 0 <= v < n implies bernoulli_code((#[trigger] coding@[v])@, k as nat) by {
        let s = rows@[v]@;
        assert(s.len() == k && signs(s) && coding@[v]@ == lifted(grade_one(s), k as nat));
    }
    coding
}

/// `k!`
pub fn factorial(k: usize) -> (r: u64)
    requires
        k <= 20,
    ensures
        r == fact(k as nat),
{
    let mut res: u64 = 1;
    let mut i: u64 = 1;
    proof {
        lemma_fact_monotone(0, 20);
    }
    while i <= k as u64
        invariant
            1 <= i <= k + 1,
            k <= 20,
            res == fact((i - 1) as nat),
            res <= fact(20),
        decreases k + 1 - i,
    {
        proof {
            reveal_with_fuel(fact, 21);
            assert(fact(20) == 2432902008176640000);
            assert(fact(i as nat) == i * fact((i - 1) as nat));
            lemma_fact_monotone(i as nat, 20);
            assert(res * i == fact(i as nat)) by (nonlinear_arith)
                requires
                    res == fact((i - 1) as nat),
                    fact(i as nat) == i * fact((i - 1) as nat),
            ;
        }
        res = res * i;
        i = i + 1;
    }
    res
}

/// `fact` never decreases.
pub proof fn lemma_fact_monotone(a: nat, b: nat)
    requires
        a <= b,
    ensures
        fact(a) <= fact(b),
        fact(a) >= 1,
    decreases b,
{
    if b > 0 && a < b {
        lemma_fact_monotone(a, (b - 1) as nat);
        assert(fact(b) == b * fact((b - 1) as nat));
        assert(b * fact((b - 1) as nat) >= fact((b - 1) as nat)) by (nonlinear_arith)
            requires
                b >= 1,
        ;
    } else if a > 0 {
        lemma_fact_monotone((a - 1) as nat, (a - 1) as nat);
        assert(a * fact((a - 1) as nat) >= 1) by (nonlinear_arith)
            requires
                a >= 1,
                fact((a - 1) as nat) >= 1,
        ;
    }
}

/// Whether two sorted lists share an element.
pub fn has_intersection(a: &Vec<u8>, b: &Vec<u8>) -> (r: bool)
    requires
        sorted(a@),
        sorted(b@),
    ensures
        r == exists|i: int, j: int| 0 <= i < a.len() && 0 <= j < b.len() && a@[i] == b@[j],
{
    let mut i: usize = 0;
    let mut j: usize = 0;
    while i < a.len() && j < b.len()
        invariant
            sorted(a@),
            sorted(b@),
            i <= a.len(),
            j <= b.len(),
            forall|p: int, q: int| 0 <= p < i && 0 <= q < b.len() ==> a@[p] != b@[q],
            forall|p: int, q: int| 0 <= p < a.len() && 0 <= q < j ==> a@[p] != b@[q],
        decreases a.len() + b.len() - i - j,
    {
        if a[i] == b[j] {
            return true;
        }
        if a[i] < b[j] {
            i = i + 1;
        } else {
            j = j + 1;
        }
    }
    false
}

/// The one-sided Student-t critical value for `df` degrees of freedom, in
/// thousandths.
pub fn t_value_milli(df: u32) -> (r: u32)
    ensures
        r == if df <= 4 {
            3747u32
        } else if df <= 8 {
            2896u32
        } else if df <= 16 {
            2583u32
        } else if df <= 32 {
            2457u32
        } else if df <= 64 {
            2390u32
        } else if df <= 128 {
            2358u32
        } else {
            2326u32
        },
{
    if df <= 4 {
        3747
    } else if df <= 8 {
        2896
    } else if df <= 16 {
        2583
    } else if df <= 32 {
        2457
    } else if df <= 64 {
        2390
    } else if df <= 128 {
        2358
    } else {
        2326
    }
}

} // verus!
