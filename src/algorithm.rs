//! Algorithm U (does a k-path exist?) and the single trial of algorithm C
//! (approximate k-path counting).

use crate::extensor::{coef, BitVec, ExTensor};
use crate::graph::{walk_sum, Graph};
use crate::matrix::views;
use crate::utils::{bernoulli_code, create_bernoulli, create_vandermonde, vandermonde};
use vstd::arithmetic::power2::{lemma2_to64, lemma_pow2_strictly_increases, pow2};
use vstd::bits::lemma_u64_shl_is_mul;
use vstd::prelude::*;

verus! {

/// The mask of the top basis `e_1 ∧ … ∧ e_{2k}`.
pub open spec fn top_mask(k: nat) -> u32 {
    (pow2(2 * k + 1) - 2) as u32
}

/// The absolute value of a coefficient.
pub open spec fn abs(c: i64) -> nat {
    if c < 0 {
        (-c) as nat
    } else {
        c as nat
    }
}

/// # Algorithm U
///
/// Decides whether the walk sum of `g` under the lifted Vandermonde coding is
/// nonzero; on graphs with zero or one k-path this tells whether a k-path
/// exists.
pub fn u(g: &Graph, k: usize) -> (r: bool)
    requires
        1 <= k <= 15,
    ensures
        r == (walk_sum(*g, vandermonde(g.order(), k as nat), k as nat).len() != 0),
{
    let n = g.num_vert();
    let coding = create_vandermonde(n, k);
    assert(views(coding@) =~= vandermonde(n as nat, k as nat));
    let res = g.compute_walk_sum(k, coding);
    !res.is_zero()
}

/// The statistic of one trial: the absolute value of the coefficient of
/// `e_1 ∧ … ∧ e_{2k}` in the walk sum of `g` under `coding`.
pub fn walk_statistic(g: &Graph, k: usize, coding: Vec<ExTensor>) -> (r: u64)
    requires
        1 <= k <= 15,
        coding.len() == g.order(),
    ensures
        r == abs(coef(walk_sum(*g, views(coding@), k as nat), top_mask(k as nat))),
{
    let v = g.compute_walk_sum(k, coding);
    proof {
        lemma2_to64();
        lemma_pow2_strictly_increases((2 * k + 1) as nat, 32);
        lemma_u64_shl_is_mul(1u64, (2 * k + 1) as u64);
    }
    let top = BitVec { bits: ((1u64 << ((2 * k + 1) as u64)) - 2) as u32 };
    let c = v.coeff_of(&top);
    if c < 0 {
        (-(c as i128)) as u64
    } else {
        c as u64
    }
}

/// One trial of algorithm C: draws a lifted Bernoulli coding and returns its
/// walk statistic. The estimate of the number of k-paths is the mean of the
/// statistics divided by `k!`.
pub fn bernoulli_trial(g: &Graph, k: usize) -> (r: u64)
    requires
        1 <= k <= 15,
    ensures
        exists|c: Seq<Seq<(BitVec, i64)>>|
            #![trigger walk_sum(*g, c, k as nat)]
            c.len() == g.order() && (forall|v: int| 0 <= v < c.len() ==> bernoulli_code(#[trigger] c[v], k as nat))
                && r == abs(coef(walk_sum(*g, c, k as nat), top_mask(k as nat))),
{
    let n = g.num_vert();
    let coding = create_bernoulli(n, k);
    let ghost c = views(coding@);
    assert forall|v: int| 0 <= v < c.len() implies bernoulli_code(#[trigger] c[v], k as nat) by {
        assert(c[v] == coding@[v]@);
    }
    walk_statistic(g, k, coding)
}

} // verus!
