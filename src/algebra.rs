//! Identities of the wedge product, proved over the term lists that the
//! extensor operations compute.
//!
//! Coefficients live in the integers modulo 2^64, so sums of coefficients are
//! compared through their residues modulo `modulus()`.

use crate::bitvec::{bit, lemma_positions, positions, BitVec};
use crate::extensor::{
    canonical, coef, count_below, disjoint, inversions, keys_above, lemma_merge, merge, sign, single,
    term_product, wedge, wedge_term,
};
use vstd::arithmetic::div_mod::{
    lemma_add_mod_noop, lemma_mod_add_multiples_vanish, lemma_mod_sub_multiples_vanish, lemma_mul_mod_noop_left,
    lemma_mul_mod_noop_right, lemma_small_mod,
};
use crate::utils::grade_one;
use vstd::arithmetic::power2::{lemma2_to64, pow2};
use vstd::prelude::*;

verus! {

/// 2^64.
pub open spec fn modulus() -> int {
    0x1_0000_0000_0000_0000
}

/// Every term has odd grade: its basis holds an odd number of indices.
/// Grade-one extensors, sums of single basis vectors `c e_a`, are the first case.
pub open spec fn odd_grade_terms(s: Seq<(BitVec, i64)>) -> bool {
    forall|q: int| 0 <= q < s.len() ==> positions(#[trigger] s[q].0.bits, 32).len() % 2 == 1
}

/// How many entries of `s` are above `x`.
pub open spec fn count_above(s: Seq<int>, x: int) -> nat
    decreases s.len(),
{
    if s.len() == 0 {
        0
    } else {
        count_above(s.drop_last(), x) + if x < s.last() {
            1nat
        } else {
            0nat
        }
    }
}

/// The coefficient of basis `b` in the product of the terms `s` and `t`.
pub open spec fn product_coef(s: (BitVec, i64), t: (BitVec, i64), b: u32) -> int {
    coef(term_product(s, t), b) as int
}

/// `Σ_q product_coef(t, ys[q], b)`.
pub open spec fn row_sum(t: (BitVec, i64), ys: Seq<(BitVec, i64)>, b: u32) -> int
    decreases ys.len(),
{
    if ys.len() == 0 {
        0
    } else {
        row_sum(t, ys.drop_last(), b) + product_coef(t, ys.last(), b)
    }
}

/// `Σ_q product_coef(ys[q], t, b)`.
pub open spec fn col_sum(ys: Seq<(BitVec, i64)>, t: (BitVec, i64), b: u32) -> int
    decreases ys.len(),
{
    if ys.len() == 0 {
        0
    } else {
        col_sum(ys.drop_last(), t, b) + product_coef(ys.last(), t, b)
    }
}

/// `Σ_p Σ_q product_coef(xs[p], ys[q], b)`.
pub open spec fn pair_sum(xs: Seq<(BitVec, i64)>, ys: Seq<(BitVec, i64)>, b: u32) -> int
    decreases xs.len(),
{
    if xs.len() == 0 {
        0
    } else {
        pair_sum(xs.drop_last(), ys, b) + row_sum(xs.last(), ys, b)
    }
}

/// Residue of an `i64` value.
proof fn lemma_i64_mod(c: i64)
    ensures
        c >= 0 ==> (c as int) % modulus() == c,
        c < 0 ==> (c as int) % modulus() == c + modulus(),
        (c as int) % modulus() == 0 <==> c == 0,
{
    if c >= 0 {
        lemma_small_mod(c as nat, modulus() as nat);
    } else {
        lemma_mod_add_multiples_vanish(c as int, modulus());
        lemma_small_mod((c + modulus()) as nat, modulus() as nat);
    }
}

/// A wrapping sum has the residue of the exact sum.
proof fn lemma_wrapping_add_mod(x: i64, y: i64)
    ensures
        (x.wrapping_add(y) as int) % modulus() == (x + y) % modulus(),
{
    if x + y > i64::MAX {
        lemma_mod_sub_multiples_vanish(x + y, modulus());
    } else if x + y < i64::MIN {
        lemma_mod_add_multiples_vanish(x + y, modulus());
    }
}

/// A wrapping product has the residue of the exact product.
proof fn lemma_wrapping_mul_mod(x: i64, y: i64)
    ensures
        (x.wrapping_mul(y) as int) % modulus() == (x * y) % modulus(),
{
    let z = x * y;
    let m = z % modulus();
    if m > i64::MAX {
        lemma_mod_sub_multiples_vanish(m, modulus());
        lemma_small_mod(m as nat, modulus() as nat);
    } else {
        lemma_small_mod(m as nat, modulus() as nat);
    }
}

/// Adding zero leaves a coefficient alone.
proof fn lemma_wrapping_add_zero(x: i64)
    ensures
        x.wrapping_add(0) == x,
        0i64.wrapping_add(x) == x,
{
}

/// The coefficient of a list that starts with `h`, all of whose other keys lie above.
proof fn lemma_coef_prepend(h: (BitVec, i64), r: Seq<(BitVec, i64)>, b: u32)
    requires
        keys_above(r, h.0.bits as int),
    ensures
        coef(seq![h] + r, b) == if b == h.0.bits {
            h.1
        } else {
            coef(r, b)
        },
    decreases r.len(),
{
    if r.len() == 0 {
        assert(r =~= Seq::<(BitVec, i64)>::empty());
        assert(seq![h] + r =~= seq![h]);
        assert(seq![h].drop_last() =~= Seq::<(BitVec, i64)>::empty());
        assert(seq![h].last() == h);
    } else {
        let s = seq![h] + r;
        assert(s.drop_last() =~= seq![h] + r.drop_last());
        assert(s.last() == r.last());
        assert(r.last() == r[r.len() - 1]);
        assert(keys_above(r.drop_last(), h.0.bits as int)) by {
            assert forall|a: int| 0 <= a < r.drop_last().len() implies r.drop_last()[a].0.bits > h.0.bits by {
                assert(r.drop_last()[a] == r[a]);
            }
        }
        lemma_coef_prepend(h, r.drop_last(), b);
        if b == h.0.bits {
            assert(r.last().0.bits > h.0.bits);
        }
    }
}

/// A key below every key of the list reads as zero.
proof fn lemma_coef_below(s: Seq<(BitVec, i64)>, b: u32)
    requires
        keys_above(s, b as int),
    ensures
        coef(s, b) == 0,
    decreases s.len(),
{
    if s.len() > 0 {
        lemma_coef_below(s.drop_last(), b);
    }
}

/// A canonical list read from its first term.
proof fn lemma_coef_first(s: Seq<(BitVec, i64)>, b: u32)
    requires
        canonical(s),
        s.len() > 0,
    ensures
        keys_above(s.drop_first(), s[0].0.bits as int),
        coef(s, b) == if b == s[0].0.bits {
            s[0].1
        } else {
            coef(s.drop_first(), b)
        },
{
    assert(s =~= seq![s[0]] + s.drop_first());
    lemma_coef_prepend(s[0], s.drop_first(), b);
}

/// The coefficients of a sum are the wrapping sums of the coefficients.
pub proof fn lemma_coef_merge(a: Seq<(BitVec, i64)>, b: Seq<(BitVec, i64)>, k: u32)
    requires
        canonical(a),
        canonical(b),
    ensures
        coef(merge(a, b), k) == coef(a, k).wrapping_add(coef(b, k)),
    decreases a.len() + b.len(),
{
    if a.len() == 0 {
        lemma_coef_below(a, k);
        lemma_wrapping_add_zero(coef(b, k));
    } else if b.len() == 0 {
        lemma_coef_below(b, k);
        lemma_wrapping_add_zero(coef(a, k));
    } else {
        let a1 = a.drop_first();
        let b1 = b.drop_first();
        lemma_coef_first(a, k);
        lemma_coef_first(b, k);
        assert(canonical(a1));
        assert(canonical(b1));
        if a[0].0.bits < b[0].0.bits {
            lemma_coef_merge(a1, b, k);
            lemma_merge(a1, b, a[0].0.bits as int);
            lemma_coef_prepend(a[0], merge(a1, b), k);
            if k == a[0].0.bits {
                lemma_coef_below(a1, k);
                lemma_coef_below(b, k);
                lemma_wrapping_add_zero(a[0].1);
            }
        } else if b[0].0.bits < a[0].0.bits {
            lemma_coef_merge(a, b1, k);
            lemma_merge(a, b1, b[0].0.bits as int);
            lemma_coef_prepend(b[0], merge(a, b1), k);
            if k == b[0].0.bits {
                lemma_coef_below(a, k);
                lemma_coef_below(b1, k);
                lemma_wrapping_add_zero(b[0].1);
            }
        } else {
            lemma_coef_merge(a1, b1, k);
            lemma_merge(a1, b1, a[0].0.bits as int);
            let c = a[0].1.wrapping_add(b[0].1);
            if k == a[0].0.bits {
                lemma_coef_below(a1, k);
                lemma_coef_below(b1, k);
                lemma_coef_below(merge(a1, b1), k);
                lemma_wrapping_add_zero(0);
                if c != 0 {
                    lemma_coef_prepend((a[0].0, c), merge(a1, b1), k);
                }
            } else if c != 0 {
                lemma_coef_prepend((a[0].0, c), merge(a1, b1), k);
            }
        }
    }
}

/// Products accumulate canonically.
proof fn lemma_wedge_term_canonical(acc: Seq<(BitVec, i64)>, t: (BitVec, i64), ys: Seq<(BitVec, i64)>)
    requires
        canonical(acc),
    ensures
        canonical(wedge_term(acc, t, ys)),
    decreases ys.len(),
{
    if ys.len() > 0 {
        lemma_wedge_term_canonical(acc, t, ys.drop_last());
        let p = term_product(t, ys.last());
        assert(canonical(p));
        lemma_merge(wedge_term(acc, t, ys.drop_last()), p, -1);
    }
}

/// Wedge products are canonical.
pub proof fn lemma_wedge_canonical(xs: Seq<(BitVec, i64)>, ys: Seq<(BitVec, i64)>)
    ensures
        canonical(wedge(xs, ys)),
    decreases xs.len(),
{
    if xs.len() > 0 {
        lemma_wedge_canonical(xs.drop_last(), ys);
        lemma_wedge_term_canonical(wedge(xs.drop_last(), ys), xs.last(), ys);
    }
}

/// The coefficient of `acc` plus the products of `t` with `ys`.
proof fn lemma_wedge_term_coef(acc: Seq<(BitVec, i64)>, t: (BitVec, i64), ys: Seq<(BitVec, i64)>, b: u32)
    requires
        canonical(acc),
    ensures
        (coef(wedge_term(acc, t, ys), b) as int) % modulus() == (coef(acc, b) + row_sum(t, ys, b)) % modulus(),
    decreases ys.len(),
{
    if ys.len() > 0 {
        let d = ys.drop_last();
        lemma_wedge_term_coef(acc, t, d, b);
        lemma_wedge_term_canonical(acc, t, d);
        let w = wedge_term(acc, t, d);
        let p = term_product(t, ys.last());
        assert(canonical(p));
        lemma_coef_merge(w, p, b);
        lemma_wrapping_add_mod(coef(w, b), coef(p, b));
        lemma_add_mod_noop(coef(w, b) as int, coef(p, b) as int, modulus());
        lemma_add_mod_noop(coef(acc, b) + row_sum(t, d, b), coef(p, b) as int, modulus());
    }
}

/// The coefficient of a wedge product is the sum of the pairwise products.
pub proof fn lemma_wedge_coef(xs: Seq<(BitVec, i64)>, ys: Seq<(BitVec, i64)>, b: u32)
    ensures
        (coef(wedge(xs, ys), b) as int) % modulus() == pair_sum(xs, ys, b) % modulus(),
    decreases xs.len(),
{
    if xs.len() == 0 {
        lemma_coef_below(Seq::<(BitVec, i64)>::empty(), b);
    } else {
        let d = xs.drop_last();
        lemma_wedge_coef(d, ys, b);
        lemma_wedge_canonical(d, ys);
        lemma_wedge_term_coef(wedge(d, ys), xs.last(), ys, b);
        lemma_add_mod_noop(coef(wedge(d, ys), b) as int, row_sum(xs.last(), ys, b), modulus());
        lemma_add_mod_noop(pair_sum(d, ys, b), row_sum(xs.last(), ys, b), modulus());
    }
}

/// Peeling the last factor of the right-hand list off a pair sum.
proof fn lemma_pair_sum_right(ys: Seq<(BitVec, i64)>, xs: Seq<(BitVec, i64)>, b: u32)
    requires
        xs.len() > 0,
    ensures
        pair_sum(ys, xs, b) == pair_sum(ys, xs.drop_last(), b) + col_sum(ys, xs.last(), b),
    decreases ys.len(),
{
    if ys.len() > 0 {
        lemma_pair_sum_right(ys.drop_last(), xs, b);
    }
}

/// Below and above `x` split a list that does not hold `x`.
proof fn lemma_count_split(s: Seq<int>, x: int)
    requires
        !s.contains(x),
    ensures
        count_below(s, x) + count_above(s, x) == s.len(),
    decreases s.len(),
{
    if s.len() > 0 {
        let d = s.drop_last();
        assert(!d.contains(x)) by {
            if d.contains(x) {
                let q = choose|q: int| 0 <= q < d.len() && d[q] == x;
                assert(s[q] == x);
            }
        }
        assert(s.last() == s[s.len() - 1]);
        lemma_count_split(d, x);
    }
}

/// Removing the last entry of the right-hand list from an inversion count.
proof fn lemma_inversions_right(sb: Seq<int>, sa: Seq<int>)
    requires
        sa.len() > 0,
    ensures
        inversions(sb, sa) == inversions(sb, sa.drop_last()) + count_above(sb, sa.last()),
    decreases sb.len(),
{
    if sb.len() > 0 {
        lemma_inversions_right(sb.drop_last(), sa);
    }
}

/// Every pair of entries of two lists with no common entry is out of order in
/// exactly one of the two concatenations.
proof fn lemma_inversions_swap(sa: Seq<int>, sb: Seq<int>)
    requires
        forall|x: int| !(sa.contains(x) && sb.contains(x)),
    ensures
        inversions(sa, sb) + inversions(sb, sa) == sa.len() * sb.len(),
    decreases sa.len(),
{
    if sa.len() == 0 {
        assert(sa =~= Seq::<int>::empty());
        lemma_inversions_empty(sb);
    } else {
        let d = sa.drop_last();
        let x = sa.last();
        assert(forall|y: int| !(d.contains(y) && sb.contains(y))) by {
            assert forall|y: int| !(d.contains(y) && sb.contains(y)) by {
                if d.contains(y) {
                    let q = choose|q: int| 0 <= q < d.len() && d[q] == y;
                    assert(sa[q] == y);
                    assert(sa.contains(y));
                }
            }
        }
        assert(sa.contains(x)) by {
            assert(sa[sa.len() - 1] == x);
        }
        lemma_inversions_swap(d, sb);
        lemma_inversions_right(sb, sa);
        lemma_count_split(sb, x);
        assert(d.len() * sb.len() + sb.len() == sa.len() * sb.len()) by (nonlinear_arith)
            requires
                d.len() + 1 == sa.len(),
        ;
    }
}

/// Nothing is out of order against the empty list.
proof fn lemma_inversions_empty(sb: Seq<int>)
    ensures
        inversions(sb, Seq::empty()) == 0,
    decreases sb.len(),
{
    if sb.len() > 0 {
        lemma_inversions_empty(sb.drop_last());
    }
}

/// Two disjoint bases of odd grade anticommute: `sign(m, n) = -sign(n, m)`.
proof fn lemma_sign_swap(m: u32, n: u32)
    requires
        disjoint(BitVec { bits: m }, BitVec { bits: n }),
        positions(m, 32).len() % 2 == 1,
        positions(n, 32).len() % 2 == 1,
    ensures
        sign(m, n) == -sign(n, m),
{
    let pm = positions(m, 32);
    let pn = positions(n, 32);
    lemma_positions(m, 32);
    lemma_positions(n, 32);
    assert forall|x: int| !(pm.contains(x) && pn.contains(x)) by {
        if pm.contains(x) && pn.contains(x) {
            assert(BitVec { bits: m }.has(x) && BitVec { bits: n }.has(x));
        }
    }
    lemma_inversions_swap(pm, pn);
    let u = pm.len() as int;
    let v = pn.len() as int;
    let a = u / 2;
    let c = v / 2;
    let k = 2 * a * c + a + c;
    assert(u * v == 2 * k + 1) by (nonlinear_arith)
        requires
            u == 2 * a + 1,
            v == 2 * c + 1,
            k == 2 * a * c + a + c,
    ;
    assert((u * v) % 2 == 1);
}

/// Sign of two single indices.
proof fn lemma_sign_single(m: u32, n: u32, a: int, c: int)
    requires
        positions(m, 32) == seq![a],
        positions(n, 32) == seq![c],
    ensures
        sign(m, n) == if c < a {
            -1i64
        } else {
            1i64
        },
{
    assert(seq![a].drop_last() =~= Seq::<int>::empty());
    assert(seq![c].drop_last() =~= Seq::<int>::empty());
    assert(seq![a].last() == a);
    assert(seq![c].last() == c);
    assert(inversions(Seq::<int>::empty(), seq![c]) == 0);
    assert(count_below(Seq::<int>::empty(), a) == 0);
    assert(count_below(seq![c], a) == if c < a {
        1nat
    } else {
        0nat
    });
    assert(inversions(seq![a], seq![c]) == count_below(seq![c], a));
}

/// The products `s ∧ t` and `t ∧ s` of odd-grade terms cancel.
proof fn lemma_pair_cancels(s: (BitVec, i64), t: (BitVec, i64), b: u32)
    requires
        positions(s.0.bits, 32).len() % 2 == 1,
        positions(t.0.bits, 32).len() % 2 == 1,
    ensures
        (product_coef(s, t, b) + product_coef(t, s, b)) % modulus() == 0,
{
    if !disjoint(s.0, t.0) {
        assert(!disjoint(t.0, s.0));
        lemma_coef_below(Seq::<(BitVec, i64)>::empty(), b);
    } else {
        assert(disjoint(t.0, s.0));
        let x = s.0.bits;
        let y = t.0.bits;
        assert(x ^ y == y ^ x) by (bit_vector);
        lemma_sign_swap(x, y);
        let sg = sign(x, y);
        let c1 = sg.wrapping_mul(s.1).wrapping_mul(t.1);
        let c2 = sign(y, x).wrapping_mul(t.1).wrapping_mul(s.1);
        assert(sign(y, x) == -sg);
        let w1 = sg.wrapping_mul(s.1);
        let w2 = sign(y, x).wrapping_mul(t.1);
        lemma_wrapping_mul_mod(sg, s.1);
        lemma_wrapping_mul_mod(w1, t.1);
        lemma_mul_mod_noop_left(sg * s.1, t.1 as int, modulus());
        lemma_mul_mod_noop_left(w1 as int, t.1 as int, modulus());
        lemma_wrapping_mul_mod(sign(y, x), t.1);
        lemma_wrapping_mul_mod(w2, s.1);
        lemma_mul_mod_noop_left(sign(y, x) * t.1, s.1 as int, modulus());
        lemma_mul_mod_noop_left(w2 as int, s.1 as int, modulus());
        assert((c1 as int) % modulus() == (sg * s.1 * t.1) % modulus());
        assert((c2 as int) % modulus() == (sign(y, x) * t.1 * s.1) % modulus());
        let z = sg * s.1 * t.1;
        assert(sign(y, x) * t.1 * s.1 == -z) by (nonlinear_arith)
            requires
                sign(y, x) == -sg,
                z == sg * s.1 * t.1,
        ;
        lemma_add_mod_noop(c1 as int, c2 as int, modulus());
        lemma_add_mod_noop(z, -z, modulus());
        assert((c1 + c2) % modulus() == 0);
        lemma_i64_mod(c1);
        lemma_i64_mod(c2);
        let key = BitVec { bits: x ^ y };
        assert(term_product(s, t) == single(key, c1));
        assert(term_product(t, s) == single(key, c2));
        assert(c1 == 0 <==> c2 == 0) by {
            if c1 == 0 {
                assert((c2 as int) % modulus() == 0);
            }
            if c2 == 0 {
                assert((c1 as int) % modulus() == 0);
            }
        }
        lemma_coef_below(Seq::<(BitVec, i64)>::empty(), b);
        if c1 != 0 {
            assert(single(key, c1).drop_last() =~= Seq::<(BitVec, i64)>::empty());
            assert(single(key, c2).drop_last() =~= Seq::<(BitVec, i64)>::empty());
        }
    }
}

/// A sum of terms `t ∧ ys[q] + ys[q] ∧ t` vanishes for odd-grade terms.
proof fn lemma_row_col_cancel(t: (BitVec, i64), ys: Seq<(BitVec, i64)>, b: u32)
    requires
        positions(t.0.bits, 32).len() % 2 == 1,
        odd_grade_terms(ys),
    ensures
        (row_sum(t, ys, b) + col_sum(ys, t, b)) % modulus() == 0,
    decreases ys.len(),
{
    if ys.len() > 0 {
        let d = ys.drop_last();
        assert(odd_grade_terms(d)) by {
            assert forall|q: int| 0 <= q < d.len() implies positions(#[trigger] d[q].0.bits, 32).len() % 2 == 1 by {
                assert(d[q] == ys[q]);
            }
        }
        lemma_row_col_cancel(t, d, b);
        assert(positions(ys[ys.len() - 1].0.bits, 32).len() % 2 == 1);
        lemma_pair_cancels(t, ys.last(), b);
        let u = row_sum(t, d, b) + col_sum(d, t, b);
        let v = product_coef(t, ys.last(), b) + product_coef(ys.last(), t, b);
        lemma_add_mod_noop(u, v, modulus());
    }
}

/// The sum `x ∧ y + y ∧ x` for odd-grade term lists is a multiple of 2^64.
proof fn lemma_pair_sum_antisymmetric(xs: Seq<(BitVec, i64)>, ys: Seq<(BitVec, i64)>, b: u32)
    requires
        odd_grade_terms(xs),
        odd_grade_terms(ys),
    ensures
        (pair_sum(xs, ys, b) + pair_sum(ys, xs, b)) % modulus() == 0,
    decreases xs.len(),
{
    if xs.len() == 0 {
        assert(xs =~= Seq::<(BitVec, i64)>::empty());
        lemma_pair_sum_empty(ys, b);
    } else {
        let d = xs.drop_last();
        assert(odd_grade_terms(d)) by {
            assert forall|q: int| 0 <= q < d.len() implies positions(#[trigger] d[q].0.bits, 32).len() % 2 == 1 by {
                assert(d[q] == xs[q]);
            }
        }
        lemma_pair_sum_antisymmetric(d, ys, b);
        lemma_pair_sum_right(ys, xs, b);
        assert(positions(xs[xs.len() - 1].0.bits, 32).len() % 2 == 1);
        lemma_row_col_cancel(xs.last(), ys, b);
        let u = pair_sum(d, ys, b) + pair_sum(ys, d, b);
        let v = row_sum(xs.last(), ys, b) + col_sum(ys, xs.last(), b);
        lemma_add_mod_noop(u, v, modulus());
    }
}

/// A pair sum against the empty list is zero.
proof fn lemma_pair_sum_empty(ys: Seq<(BitVec, i64)>, b: u32)
    ensures
        pair_sum(ys, Seq::empty(), b) == 0,
    decreases ys.len(),
{
    if ys.len() > 0 {
        lemma_pair_sum_empty(ys.drop_last(), b);
    }
}

/// A canonical list whose coefficients are all zero is empty.
proof fn lemma_zero_coefs_empty(s: Seq<(BitVec, i64)>)
    requires
        canonical(s),
        forall|b: u32| #[trigger] coef(s, b) == 0,
    ensures
        s == Seq::<(BitVec, i64)>::empty(),
{
    if s.len() > 0 {
        assert(coef(s, s.last().0.bits) == s.last().1);
        assert(false);
    }
    assert(s =~= Seq::<(BitVec, i64)>::empty());
}

/// Antisymmetry of the wedge product: for extensors `x`, `y` whose terms all
/// have odd grade, grade one among them, `x ∧ y + y ∧ x = 0`.
pub proof fn law_wedge_antisymmetric(x: Seq<(BitVec, i64)>, y: Seq<(BitVec, i64)>)
    requires
        canonical(x),
        canonical(y),
        odd_grade_terms(x),
        odd_grade_terms(y),
    ensures
        merge(wedge(x, y), wedge(y, x)) == Seq::<(BitVec, i64)>::empty(),
{
    let p = wedge(x, y);
    let q = wedge(y, x);
    lemma_wedge_canonical(x, y);
    lemma_wedge_canonical(y, x);
    lemma_merge(p, q, -1);
    assert forall|b: u32| #[trigger] coef(merge(p, q), b) == 0 by {
        lemma_coef_merge(p, q, b);
        lemma_wrapping_add_mod(coef(p, b), coef(q, b));
        lemma_wedge_coef(x, y, b);
        lemma_wedge_coef(y, x, b);
        lemma_pair_sum_antisymmetric(x, y, b);
        lemma_add_mod_noop(coef(p, b) as int, coef(q, b) as int, modulus());
        lemma_add_mod_noop(pair_sum(x, y, b), pair_sum(y, x, b), modulus());
        lemma_i64_mod(coef(merge(p, q), b));
    }
    lemma_zero_coefs_empty(merge(p, q));
}

/// The sum `x ∧ x` for an odd-grade term list is a multiple of 2^64.
proof fn lemma_pair_sum_self(xs: Seq<(BitVec, i64)>, b: u32)
    requires
        odd_grade_terms(xs),
    ensures
        pair_sum(xs, xs, b) % modulus() == 0,
    decreases xs.len(),
{
    if xs.len() == 0 {
    } else {
        let d = xs.drop_last();
        let t = xs.last();
        assert(odd_grade_terms(d)) by {
            assert forall|q: int| 0 <= q < d.len() implies positions(#[trigger] d[q].0.bits, 32).len() % 2 == 1 by {
                assert(d[q] == xs[q]);
            }
        }
        assert(positions(xs[xs.len() - 1].0.bits, 32).len() % 2 == 1);
        lemma_pair_sum_self(d, b);
        lemma_pair_sum_right(d, xs, b);
        lemma_row_col_cancel(t, d, b);
        lemma_positions(t.0.bits, 32);
        let a = positions(t.0.bits, 32)[0];
        assert(positions(t.0.bits, 32).contains(a));
        assert(t.0.has(a));
        assert(!disjoint(t.0, t.0));
        lemma_coef_below(Seq::<(BitVec, i64)>::empty(), b);
        assert(product_coef(t, t, b) == 0);
        assert(row_sum(t, xs, b) == row_sum(t, d, b) + product_coef(t, t, b));
        let u = pair_sum(d, d, b);
        let v = row_sum(t, d, b) + col_sum(d, t, b);
        lemma_add_mod_noop(u, v, modulus());
    }
}

/// An extensor whose terms all have odd grade, grade one among them, wedged
/// with itself vanishes: `x ∧ x = 0`.
pub proof fn law_wedge_self_vanishes(x: Seq<(BitVec, i64)>)
    requires
        canonical(x),
        odd_grade_terms(x),
    ensures
        wedge(x, x) == Seq::<(BitVec, i64)>::empty(),
{
    lemma_wedge_canonical(x, x);
    assert forall|b: u32| #[trigger] coef(wedge(x, x), b) == 0 by {
        lemma_wedge_coef(x, x, b);
        lemma_pair_sum_self(x, b);
        lemma_i64_mod(coef(wedge(x, x), b));
    }
    lemma_zero_coefs_empty(wedge(x, x));
}

/// The `i64` with the residue of `z` modulo 2^64.
pub open spec fn wrap(z: int) -> i64 {
    if z % modulus() > i64::MAX {
        (z % modulus() - modulus()) as i64
    } else {
        (z % modulus()) as i64
    }
}

/// `wrap` keeps the residue.
proof fn lemma_wrap(z: int)
    ensures
        (wrap(z) as int) % modulus() == z % modulus(),
{
    let m = z % modulus();
    if m > i64::MAX {
        lemma_mod_sub_multiples_vanish(m, modulus());
    }
    lemma_small_mod(m as nat, modulus() as nat);
}

/// Two canonical lists with the same coefficients are equal.
pub proof fn lemma_canonical_ext(a: Seq<(BitVec, i64)>, b: Seq<(BitVec, i64)>)
    requires
        canonical(a),
        canonical(b),
        forall|k: u32| #[trigger] coef(a, k) == coef(b, k),
    ensures
        a == b,
    decreases a.len() + b.len(),
{
    if a.len() == 0 && b.len() == 0 {
        assert(a =~= b);
    } else if a.len() == 0 {
        assert(coef(b, b.last().0.bits) == b.last().1);
        lemma_coef_below(a, b.last().0.bits);
    } else if b.len() == 0 {
        assert(coef(a, a.last().0.bits) == a.last().1);
        lemma_coef_below(b, a.last().0.bits);
    } else {
        let ka = a.last().0.bits;
        let kb = b.last().0.bits;
        let da = a.drop_last();
        let db = b.drop_last();
        assert(forall|q: int| 0 <= q < da.len() ==> da[q].0.bits < ka) by {
            assert forall|q: int| 0 <= q < da.len() implies da[q].0.bits < ka by {
                assert(da[q] == a[q]);
            }
        }
        assert(forall|q: int| 0 <= q < db.len() ==> db[q].0.bits < kb) by {
            assert forall|q: int| 0 <= q < db.len() implies db[q].0.bits < kb by {
                assert(db[q] == b[q]);
            }
        }
        if ka < kb {
            lemma_coef_absent_above(da, kb);
            assert(coef(a, kb) == 0);
            assert(coef(b, kb) == b.last().1);
        } else if kb < ka {
            lemma_coef_absent_above(db, ka);
            assert(coef(b, ka) == 0);
            assert(coef(a, ka) == a.last().1);
        } else {
            assert(coef(a, ka) == a.last().1);
            assert(coef(b, ka) == b.last().1);
            assert forall|k: u32| #[trigger] coef(da, k) == coef(db, k) by {
                if k == ka {
                    lemma_coef_absent_above(da, ka);
                    lemma_coef_absent_above(db, ka);
                } else {
                    assert(coef(a, k) == coef(da, k));
                    assert(coef(b, k) == coef(db, k));
                }
            }
            lemma_canonical_ext(da, db);
            assert(a =~= da.push(a.last()));
            assert(b =~= db.push(b.last()));
        }
    }
}

/// A key above every key of the list reads as zero.
proof fn lemma_coef_absent_above(s: Seq<(BitVec, i64)>, k: u32)
    requires
        forall|q: int| 0 <= q < s.len() ==> s[q].0.bits < k,
    ensures
        coef(s, k) == 0,
    decreases s.len(),
{
    if s.len() > 0 {
        let d = s.drop_last();
        assert forall|q: int| 0 <= q < d.len() implies d[q].0.bits < k by {
            assert(d[q] == s[q]);
        }
        lemma_coef_absent_above(d, k);
    }
}

/// The positions of a mask with exactly one set bit.
proof fn lemma_positions_one(m: u32, a: int, n: int)
    requires
        0 <= a < 32,
        0 <= n <= 32,
        forall|i: int| 0 <= i < 32 ==> (#[trigger] bit(m, i) <==> i == a),
    ensures
        positions(m, n) == if a < n {
            seq![a]
        } else {
            Seq::<int>::empty()
        },
    decreases n,
{
    if n > 0 {
        lemma_positions_one(m, a, n - 1);
        assert(bit(m, n - 1) <==> n - 1 == a);
        if n - 1 == a {
            assert(Seq::<int>::empty().push(a) =~= seq![a]);
        }
    }
}

/// The list of the grade-one extensor `a e_1 + b e_2`, with zero terms left out.
proof fn lemma_two_terms(a: i64, b: i64)
    ensures
        grade_one(seq![a, b]) == single(BitVec { bits: 2 }, a) + single(BitVec { bits: 4 }, b),
        canonical(grade_one(seq![a, b])),
{
    lemma2_to64();
    let s = seq![a, b];
    assert(s.drop_last() =~= seq![a]);
    assert(seq![a].drop_last() =~= Seq::<i64>::empty());
    assert(seq![a].last() == a);
    assert(s.last() == b);
    assert(grade_one(Seq::<i64>::empty()) == Seq::<(BitVec, i64)>::empty());
    assert(grade_one(seq![a]) == merge(Seq::empty(), single(BitVec { bits: 2 }, a)));
    let x = single(BitVec { bits: 2 }, a);
    let y = single(BitVec { bits: 4 }, b);
    assert(grade_one(s) == merge(x, y));
    if a != 0 && b != 0 {
        assert(x.drop_first() =~= Seq::<(BitVec, i64)>::empty());
        assert(merge(x.drop_first(), y) == y);
        assert(merge(x, y) =~= x + y);
    } else if a == 0 {
        assert(merge(x, y) =~= x + y);
    } else {
        assert(merge(x, y) =~= x + y);
    }
}

/// Pair sums over lists of at most two terms, zero terms included.
proof fn lemma_pair_sum_two(p: (BitVec, i64), q: (BitVec, i64), r: (BitVec, i64), t: (BitVec, i64), k: u32)
    requires
        p.0.bits != 0,
        q.0.bits != 0,
        r.0.bits != 0,
        t.0.bits != 0,
    ensures
        pair_sum(single(p.0, p.1) + single(q.0, q.1), single(r.0, r.1) + single(t.0, t.1), k) == product_coef(p, r, k)
            + product_coef(p, t, k) + product_coef(q, r, k) + product_coef(q, t, k),
{
    let xs = single(p.0, p.1) + single(q.0, q.1);
    let ys = single(r.0, r.1) + single(t.0, t.1);
    lemma_zero_products(p, r, k);
    lemma_zero_products(p, t, k);
    lemma_zero_products(q, r, k);
    lemma_zero_products(q, t, k);
    lemma_row_sum_two(p, r, t, k);
    lemma_row_sum_two(q, r, t, k);
    assert(seq![p, q].last() == q);
    assert(seq![q].last() == q);
    assert(seq![p].last() == p);
    assert(pair_sum(Seq::<(BitVec, i64)>::empty(), ys, k) == 0);
    let rp = row_sum(p, ys, k);
    let rq = row_sum(q, ys, k);
    if p.1 == 0 {
        assert(product_coef(p, r, k) == 0 && product_coef(p, t, k) == 0);
    }
    if q.1 == 0 {
        assert(product_coef(q, r, k) == 0 && product_coef(q, t, k) == 0);
    }
    assert(pair_sum(seq![p], ys, k) == rp) by {
        assert(seq![p].drop_last() =~= Seq::<(BitVec, i64)>::empty());
    }
    assert(pair_sum(seq![q], ys, k) == rq) by {
        assert(seq![q].drop_last() =~= Seq::<(BitVec, i64)>::empty());
    }
    if p.1 != 0 && q.1 != 0 {
        assert(xs =~= seq![p, q]);
        assert(seq![p, q].drop_last() =~= seq![p]);
        assert(pair_sum(seq![p, q], ys, k) == pair_sum(seq![p], ys, k) + rq);
    } else if p.1 != 0 {
        assert(xs =~= seq![p]);
    } else if q.1 != 0 {
        assert(xs =~= seq![q]);
    } else {
        assert(xs =~= Seq::<(BitVec, i64)>::empty());
    }
}

/// Row sums over lists of at most two terms, zero terms included.
proof fn lemma_row_sum_two(p: (BitVec, i64), r: (BitVec, i64), t: (BitVec, i64), k: u32)
    ensures
        row_sum(p, single(r.0, r.1) + single(t.0, t.1), k) == product_coef(p, r, k) + product_coef(p, t, k),
{
    let ys = single(r.0, r.1) + single(t.0, t.1);
    lemma_zero_products(p, r, k);
    lemma_zero_products(p, t, k);
    assert(seq![r, t].last() == t);
    assert(seq![t].last() == t);
    assert(seq![r].last() == r);
    assert(row_sum(p, Seq::<(BitVec, i64)>::empty(), k) == 0);
    assert(row_sum(p, seq![r], k) == product_coef(p, r, k)) by {
        assert(seq![r].drop_last() =~= Seq::<(BitVec, i64)>::empty());
    }
    assert(row_sum(p, seq![t], k) == product_coef(p, t, k)) by {
        assert(seq![t].drop_last() =~= Seq::<(BitVec, i64)>::empty());
    }
    if r.1 != 0 && t.1 != 0 {
        assert(ys =~= seq![r, t]);
        assert(seq![r, t].drop_last() =~= seq![r]);
        assert(row_sum(p, seq![r, t], k) == row_sum(p, seq![r], k) + product_coef(p, t, k));
    } else if r.1 != 0 {
        assert(ys =~= seq![r]);
    } else if t.1 != 0 {
        assert(ys =~= seq![t]);
    } else {
        assert(ys =~= Seq::<(BitVec, i64)>::empty());
    }
}

/// A product with a zero coefficient reads as zero everywhere.
proof fn lemma_zero_products(p: (BitVec, i64), r: (BitVec, i64), k: u32)
    ensures
        p.1 == 0 || r.1 == 0 ==> product_coef(p, r, k) == 0,
        p.1 == 0 || r.1 == 0 ==> product_coef(r, p, k) == 0,
{
    lemma_coef_below(Seq::<(BitVec, i64)>::empty(), k);
    if p.1 == 0 || r.1 == 0 {
        let s1 = sign(p.0.bits, r.0.bits);
        let s2 = sign(r.0.bits, p.0.bits);
        let w1 = s1.wrapping_mul(p.1);
        let w2 = s2.wrapping_mul(r.1);
        if p.1 == 0 {
            assert(s1 * p.1 == 0) by (nonlinear_arith)
                requires
                    p.1 == 0,
            ;
            assert(w1 == 0);
            assert(w1 * r.1 == 0) by (nonlinear_arith)
                requires
                    w1 == 0,
            ;
            assert(w2 * p.1 == 0) by (nonlinear_arith)
                requires
                    p.1 == 0,
            ;
        } else {
            assert(s2 * r.1 == 0) by (nonlinear_arith)
                requires
                    r.1 == 0,
            ;
            assert(w2 == 0);
            assert(w2 * p.1 == 0) by (nonlinear_arith)
                requires
                    w2 == 0,
            ;
            assert(w1 * r.1 == 0) by (nonlinear_arith)
                requires
                    r.1 == 0,
            ;
        }
        assert(w1.wrapping_mul(r.1) == 0);
        assert(w2.wrapping_mul(p.1) == 0);
    }
}

/// Determinant identity in two dimensions:
/// `(a e_1 + b e_2) ∧ (c e_1 + d e_2) = (ad - bc) e_1 ∧ e_2`.
pub proof fn law_wedge_determinant_2(a: i64, b: i64, c: i64, d: i64)
    ensures
        wedge(grade_one(seq![a, b]), grade_one(seq![c, d])) == single(BitVec { bits: 6 }, wrap(a * d - b * c)),
{
    let e1 = BitVec { bits: 2 };
    let e2 = BitVec { bits: 4 };
    let e12 = BitVec { bits: 6 };
    let x = grade_one(seq![a, b]);
    let y = grade_one(seq![c, d]);
    lemma_two_terms(a, b);
    lemma_two_terms(c, d);
    assert(forall|i: int| 0 <= i < 32 ==> (#[trigger] bit(2, i) <==> i == 1)) by {
        assert(forall|i: u32| i < 32 ==> (((2u32 >> i) & 1u32 == 1u32) <==> i == 1)) by (bit_vector);
    }
    assert(forall|i: int| 0 <= i < 32 ==> (#[trigger] bit(4, i) <==> i == 2)) by {
        assert(forall|i: u32| i < 32 ==> (((4u32 >> i) & 1u32 == 1u32) <==> i == 2)) by (bit_vector);
    }
    assert(2u32 ^ 4u32 == 6u32) by (bit_vector);
    assert(4u32 ^ 2u32 == 6u32) by (bit_vector);
    lemma_positions_one(2, 1, 32);
    lemma_positions_one(4, 2, 32);
    lemma_sign_single(2, 4, 1, 2);
    lemma_sign_single(4, 2, 2, 1);
    assert(!disjoint(e1, e1)) by {
        assert(e1.has(1));
    }
    assert(!disjoint(e2, e2)) by {
        assert(e2.has(2));
    }
    assert(disjoint(e1, e2));
    assert(disjoint(e2, e1));
    lemma_wedge_canonical(x, y);
    let w = wedge(x, y);
    let target = wrap(a * d - b * c);
    assert forall|k: u32| #[trigger] coef(w, k) == coef(single(e12, target), k) by {
        lemma_wedge_coef(x, y, k);
        lemma_pair_sum_two((e1, a), (e2, b), (e1, c), (e2, d), k);
        lemma_coef_below(Seq::<(BitVec, i64)>::empty(), k);
        let c1 = 1i64.wrapping_mul(a).wrapping_mul(d);
        let c2 = (-1i64).wrapping_mul(b).wrapping_mul(c);
        assert(term_product((e1, a), (e2, d)) == single(e12, c1));
        assert(term_product((e2, b), (e1, c)) == single(e12, c2));
        assert(product_coef((e1, a), (e1, c), k) == 0);
        assert(product_coef((e2, b), (e2, d), k) == 0);
        lemma_wrapping_mul_mod(1i64, a);
        lemma_wrapping_mul_mod(1i64.wrapping_mul(a), d);
        lemma_wrapping_mul_mod(-1i64, b);
        lemma_wrapping_mul_mod((-1i64).wrapping_mul(b), c);
        lemma_mul_mod_noop_left(-1 * b, c as int, modulus());
        lemma_mul_mod_noop_left((-1i64).wrapping_mul(b) as int, c as int, modulus());
        lemma_mul_mod_noop_left(1 * a, d as int, modulus());
        lemma_mul_mod_noop_left(1i64.wrapping_mul(a) as int, d as int, modulus());
        lemma_wrap(a * d - b * c);
        lemma_i64_mod(coef(w, k));
        lemma_i64_mod(target);
        if c1 != 0 {
            assert(single(e12, c1).drop_last() =~= Seq::<(BitVec, i64)>::empty());
        }
        if c2 != 0 {
            assert(single(e12, c2).drop_last() =~= Seq::<(BitVec, i64)>::empty());
        }
        if target != 0 {
            assert(single(e12, target).drop_last() =~= Seq::<(BitVec, i64)>::empty());
        }
        let pc1 = product_coef((e1, a), (e2, d), k);
        let pc2 = product_coef((e2, b), (e1, c), k);
        assert(pc1 == if k == 6 && c1 != 0 { c1 as int } else { 0 });
        assert(pc2 == if k == 6 && c2 != 0 { c2 as int } else { 0 });
        assert((pc1 + pc2) % modulus() == if k == 6 {
            (a * d - b * c) % modulus()
        } else {
            0
        }) by {
            lemma_add_mod_noop(pc1, pc2, modulus());
            lemma_add_mod_noop(c1 as int, c2 as int, modulus());
            lemma_i64_mod(c1);
            lemma_i64_mod(c2);
            lemma_add_mod_noop(a * d, -1 * b * c, modulus());
            assert(-1 * b * c == -(b * c)) by (nonlinear_arith);
            assert(1 * a * d == a * d) by (nonlinear_arith);
        }
        assert((coef(w, k) as int) % modulus() == (coef(single(e12, target), k) as int) % modulus());
        if coef(w, k) != coef(single(e12, target), k) {
            lemma_i64_mod(coef(single(e12, target), k));
            assert(false);
        }
    }
    lemma_canonical_ext(w, single(e12, target));
}

/// Lists whose keys all lie below the keys of another merge by concatenation.
proof fn lemma_merge_append(x: Seq<(BitVec, i64)>, y: Seq<(BitVec, i64)>)
    requires
        canonical(x),
        canonical(y),
        forall|p: int, q: int| 0 <= p < x.len() && 0 <= q < y.len() ==> x[p].0.bits < y[q].0.bits,
    ensures
        merge(x, y) == x + y,
        canonical(x + y),
    decreases x.len(),
{
    if x.len() == 0 {
        assert(x + y =~= y);
    } else if y.len() == 0 {
        assert(x + y =~= x);
    } else {
        let d = x.drop_first();
        assert forall|p: int, q: int| 0 <= p < d.len() && 0 <= q < y.len() implies d[p].0.bits < y[q].0.bits by {
            assert(d[p] == x[p + 1]);
        }
        lemma_merge_append(d, y);
        assert(x[0].0.bits < y[0].0.bits);
        assert(seq![x[0]] + (d + y) =~= x + y);
    }
    let z = x + y;
    assert forall|p: int, q: int| 0 <= p < q < z.len() implies z[p].0.bits < z[q].0.bits by {
        if q < x.len() {
        } else if p >= x.len() {
            assert(z[p] == y[p - x.len()]);
            assert(z[q] == y[q - x.len()]);
        } else {
            assert(z[q] == y[q - x.len()]);
        }
    }
}

/// Pair sums split over a concatenation on the left.
proof fn lemma_pair_sum_append(a: Seq<(BitVec, i64)>, c: Seq<(BitVec, i64)>, ys: Seq<(BitVec, i64)>, k: u32)
    ensures
        pair_sum(a + c, ys, k) == pair_sum(a, ys, k) + pair_sum(c, ys, k),
    decreases c.len(),
{
    if c.len() == 0 {
        assert(a + c =~= a);
    } else {
        assert((a + c).drop_last() =~= a + c.drop_last());
        assert((a + c).last() == c.last());
        lemma_pair_sum_append(a, c.drop_last(), ys, k);
    }
}

/// Row sums split over a concatenation.
proof fn lemma_row_sum_append(t: (BitVec, i64), a: Seq<(BitVec, i64)>, c: Seq<(BitVec, i64)>, k: u32)
    ensures
        row_sum(t, a + c, k) == row_sum(t, a, k) + row_sum(t, c, k),
    decreases c.len(),
{
    if c.len() == 0 {
        assert(a + c =~= a);
    } else {
        assert((a + c).drop_last() =~= a + c.drop_last());
        assert((a + c).last() == c.last());
        lemma_row_sum_append(t, a, c.drop_last(), k);
    }
}

/// A term with a zero coefficient adds nothing to a row.
proof fn lemma_row_sum_zero(p: (BitVec, i64), ys: Seq<(BitVec, i64)>, k: u32)
    requires
        p.1 == 0,
    ensures
        row_sum(p, ys, k) == 0,
    decreases ys.len(),
{
    if ys.len() > 0 {
        lemma_row_sum_zero(p, ys.drop_last(), k);
        lemma_zero_products(p, ys.last(), k);
    }
}

/// The pair sum of a single term is its row sum; the row sum against a single
/// term is their product.
proof fn lemma_sums_single(p: (BitVec, i64), ys: Seq<(BitVec, i64)>, r: (BitVec, i64), k: u32)
    ensures
        pair_sum(single(p.0, p.1), ys, k) == row_sum(p, ys, k),
        row_sum(p, single(r.0, r.1), k) == product_coef(p, r, k),
{
    lemma_zero_products(p, r, k);
    assert(pair_sum(Seq::<(BitVec, i64)>::empty(), ys, k) == 0);
    if p.1 == 0 {
        lemma_row_sum_zero(p, ys, k);
        assert(single(p.0, p.1) =~= Seq::<(BitVec, i64)>::empty());
    } else {
        assert(single(p.0, p.1) =~= seq![p]);
        assert(seq![p].drop_last() =~= Seq::<(BitVec, i64)>::empty());
        assert(seq![p].last() == p);
    }
    if r.1 == 0 {
        assert(single(r.0, r.1) =~= Seq::<(BitVec, i64)>::empty());
    } else {
        assert(single(r.0, r.1) =~= seq![r]);
        assert(seq![r].drop_last() =~= Seq::<(BitVec, i64)>::empty());
        assert(seq![r].last() == r);
        assert(row_sum(p, Seq::<(BitVec, i64)>::empty(), k) == 0);
    }
}

/// The product coefficient of two terms, up to residues.
proof fn lemma_product_coef(s: (BitVec, i64), t: (BitVec, i64), k: u32)
    ensures
        disjoint(s.0, t.0) && k == s.0.bits ^ t.0.bits ==> product_coef(s, t, k) % modulus() == (sign(
            s.0.bits,
            t.0.bits,
        ) * s.1 * t.1) % modulus(),
        !(disjoint(s.0, t.0) && k == s.0.bits ^ t.0.bits) ==> product_coef(s, t, k) == 0,
{
    lemma_coef_below(Seq::<(BitVec, i64)>::empty(), k);
    if disjoint(s.0, t.0) {
        let sg = sign(s.0.bits, t.0.bits);
        let w = sg.wrapping_mul(s.1);
        let c = w.wrapping_mul(t.1);
        let key = BitVec { bits: s.0.bits ^ t.0.bits };
        assert(term_product(s, t) == single(key, c));
        if c != 0 {
            assert(single(key, c).drop_last() =~= Seq::<(BitVec, i64)>::empty());
        }
        lemma_wrapping_mul_mod(sg, s.1);
        lemma_wrapping_mul_mod(w, t.1);
        lemma_mul_mod_noop_left(sg * s.1, t.1 as int, modulus());
        lemma_mul_mod_noop_left(w as int, t.1 as int, modulus());
        lemma_i64_mod(c);
        if k == key.bits {
            if c == 0 {
                assert((product_coef(s, t, k)) % modulus() == 0);
            }
        }
    }
}

/// The positions of a mask with exactly two set bits `a < b`.
proof fn lemma_positions_two(m: u32, a: int, b: int, n: int)
    requires
        0 <= a < b < 32,
        0 <= n <= 32,
        forall|i: int| 0 <= i < 32 ==> (#[trigger] bit(m, i) <==> (i == a || i == b)),
    ensures
        positions(m, n) == if b < n {
            seq![a, b]
        } else if a < n {
            seq![a]
        } else {
            Seq::<int>::empty()
        },
    decreases n,
{
    if n > 0 {
        lemma_positions_two(m, a, b, n - 1);
        assert(bit(m, n - 1) <==> (n - 1 == a || n - 1 == b));
        if n - 1 == a {
            assert(Seq::<int>::empty().push(a) =~= seq![a]);
        }
        if n - 1 == b {
            assert(seq![a].push(b) =~= seq![a, b]);
        }
    }
}

/// The sign of a two-index basis `{a, b}` before a one-index basis `{c}`.
proof fn lemma_sign_two_one(m: u32, n: u32, a: int, b: int, c: int)
    requires
        positions(m, 32) == seq![a, b],
        positions(n, 32) == seq![c],
    ensures
        sign(m, n) == if ((if c < a {
            1int
        } else {
            0int
        }) + (if c < b {
            1int
        } else {
            0int
        })) % 2 == 0 {
            1i64
        } else {
            -1i64
        },
{
    assert(seq![a, b].drop_last() =~= seq![a]);
    assert(seq![a].drop_last() =~= Seq::<int>::empty());
    assert(seq![c].drop_last() =~= Seq::<int>::empty());
    assert(seq![a, b].last() == b);
    assert(seq![a].last() == a);
    assert(seq![c].last() == c);
    assert(count_below(Seq::<int>::empty(), a) == 0);
    assert(count_below(Seq::<int>::empty(), b) == 0);
    assert(inversions(Seq::<int>::empty(), seq![c]) == 0);
    assert(count_below(seq![c], a) == if c < a {
        1nat
    } else {
        0nat
    });
    assert(count_below(seq![c], b) == if c < b {
        1nat
    } else {
        0nat
    });
    assert(inversions(seq![a], seq![c]) == count_below(seq![c], a));
    assert(inversions(seq![a, b], seq![c]) == inversions(seq![a], seq![c]) + count_below(seq![c], b));
}

/// Residues of three-term sums.
proof fn lemma_mod_sum3(x1: int, x2: int, x3: int, y1: int, y2: int, y3: int)
    requires
        x1 % modulus() == y1 % modulus(),
        x2 % modulus() == y2 % modulus(),
        x3 % modulus() == y3 % modulus(),
    ensures
        (x1 + x2 + x3) % modulus() == (y1 + y2 + y3) % modulus(),
{
    lemma_add_mod_noop(x1, x2, modulus());
    lemma_add_mod_noop(y1, y2, modulus());
    lemma_add_mod_noop(x1 + x2, x3, modulus());
    lemma_add_mod_noop(y1 + y2, y3, modulus());
}

/// The list of the grade-one extensor `a e_1 + b e_2 + c e_3`, with zero terms
/// left out.
proof fn lemma_three_terms(a: i64, b: i64, c: i64)
    ensures
        grade_one(seq![a, b, c]) == single(BitVec { bits: 2 }, a) + single(BitVec { bits: 4 }, b) + single(
            BitVec { bits: 8 },
            c,
        ),
        canonical(grade_one(seq![a, b, c])),
{
    lemma2_to64();
    lemma_two_terms(a, b);
    let s = seq![a, b, c];
    assert(s.drop_last() =~= seq![a, b]);
    assert(s.last() == c);
    let x = grade_one(seq![a, b]);
    let y = single(BitVec { bits: 8 }, c);
    assert(grade_one(s) == merge(x, y));
    assert forall|p: int, q: int| 0 <= p < x.len() && 0 <= q < y.len() implies x[p].0.bits < y[q].0.bits by {
        let u = single(BitVec { bits: 2 }, a);
        if p < u.len() {
            assert(x[p] == u[p]);
        } else {
            assert(x[p] == single(BitVec { bits: 4 }, b)[p - u.len()]);
        }
    }
    lemma_merge_append(x, y);
}

/// Two `i64` values with the same residue are equal.
proof fn lemma_i64_residue_eq(c1: i64, c2: i64)
    requires
        (c1 as int) % modulus() == (c2 as int) % modulus(),
    ensures
        c1 == c2,
{
    lemma_i64_mod(c1);
    lemma_i64_mod(c2);
}

/// The residue of the pairwise products of `a e_1 + a2 e_2 + a3 e_3` and
/// `b1 e_1 + b2 e_2 + b3 e_3` on each basis.
proof fn lemma_minors_residue(a1: i64, a2: i64, a3: i64, b1: i64, b2: i64, b3: i64, k: u32)
    ensures
        pair_sum(
            single(BitVec { bits: 2 }, a1) + single(BitVec { bits: 4 }, a2) + single(BitVec { bits: 8 }, a3),
            single(BitVec { bits: 2 }, b1) + single(BitVec { bits: 4 }, b2) + single(BitVec { bits: 8 }, b3),
            k,
        ) % modulus() == (if k == 6 {
            a1 * b2 - a2 * b1
        } else if k == 10 {
            a1 * b3 - a3 * b1
        } else if k == 12 {
            a2 * b3 - a3 * b2
        } else {
            0
        }) % modulus(),
{
    let p1 = (BitVec { bits: 2 }, a1);
    let p2 = (BitVec { bits: 4 }, a2);
    let p3 = (BitVec { bits: 8 }, a3);
    let q1 = (BitVec { bits: 2 }, b1);
    let q2 = (BitVec { bits: 4 }, b2);
    let q3 = (BitVec { bits: 8 }, b3);
    lemma_pair_sum_3x3(p1, p2, p3, q1, q2, q3, k);
    lemma_unit_masks();
    lemma_product_coef(p1, q1, k);
    lemma_product_coef(p1, q2, k);
    lemma_product_coef(p1, q3, k);
    lemma_product_coef(p2, q1, k);
    lemma_product_coef(p2, q2, k);
    lemma_product_coef(p2, q3, k);
    lemma_product_coef(p3, q1, k);
    lemma_product_coef(p3, q2, k);
    lemma_product_coef(p3, q3, k);
    if k == 6 {
        let u = product_coef(p1, q2, k);
        let v = product_coef(p2, q1, k);
        lemma_add_mod_noop(u, v, modulus());
        lemma_add_mod_noop(1 * a1 * b2, -1 * a2 * b1, modulus());
        assert(1 * a1 * b2 + -1 * a2 * b1 == a1 * b2 - a2 * b1) by (nonlinear_arith);
    } else if k == 10 {
        let u = product_coef(p1, q3, k);
        let v = product_coef(p3, q1, k);
        lemma_add_mod_noop(u, v, modulus());
        lemma_add_mod_noop(1 * a1 * b3, -1 * a3 * b1, modulus());
        assert(1 * a1 * b3 + -1 * a3 * b1 == a1 * b3 - a3 * b1) by (nonlinear_arith);
    } else if k == 12 {
        let u = product_coef(p2, q3, k);
        let v = product_coef(p3, q2, k);
        lemma_add_mod_noop(u, v, modulus());
        lemma_add_mod_noop(1 * a2 * b3, -1 * a3 * b2, modulus());
        assert(1 * a2 * b3 + -1 * a3 * b2 == a2 * b3 - a3 * b2) by (nonlinear_arith);
    }
}

/// The coefficients of the list of the three minors.
proof fn lemma_minors_list(m12: i64, m13: i64, m23: i64, k: u32)
    ensures
        canonical(single(BitVec { bits: 6 }, m12) + single(BitVec { bits: 10 }, m13) + single(BitVec { bits: 12 }, m23)),
        coef(single(BitVec { bits: 6 }, m12) + single(BitVec { bits: 10 }, m13) + single(BitVec { bits: 12 }, m23), k)
            == if k == 6 {
            m12
        } else if k == 10 {
            m13
        } else if k == 12 {
            m23
        } else {
            0
        },
{
    let r1 = single(BitVec { bits: 6 }, m12);
    let r2 = single(BitVec { bits: 10 }, m13);
    let r3 = single(BitVec { bits: 12 }, m23);
    lemma_merge_append(r1, r2);
    assert forall|p: int, q: int| 0 <= p < (r1 + r2).len() && 0 <= q < r3.len() implies (r1 + r2)[p].0.bits
        < r3[q].0.bits by {
        if p < r1.len() {
            assert((r1 + r2)[p] == r1[p]);
        } else {
            assert((r1 + r2)[p] == r2[p - r1.len()]);
        }
    }
    lemma_merge_append(r1 + r2, r3);
    lemma_coef_three(r1, r2, r3, k);
    lemma_coef_below(Seq::<(BitVec, i64)>::empty(), k);
    if m12 != 0 {
        assert(r1.drop_last() =~= Seq::<(BitVec, i64)>::empty());
    }
    if m13 != 0 {
        assert(r2.drop_last() =~= Seq::<(BitVec, i64)>::empty());
    }
    if m23 != 0 {
        assert(r3.drop_last() =~= Seq::<(BitVec, i64)>::empty());
    }
    lemma_wrapping_add_zero(m12);
    lemma_wrapping_add_zero(m13);
    lemma_wrapping_add_zero(m23);
    lemma_wrapping_add_zero(0);
}

/// The wedge of two grade-one vectors in three dimensions: the coefficients
/// on `e_1 ∧ e_2`, `e_1 ∧ e_3`, `e_2 ∧ e_3` are the 2 × 2 minors.
pub proof fn lemma_wedge_minors_3(a1: i64, a2: i64, a3: i64, b1: i64, b2: i64, b3: i64)
    ensures
        wedge(grade_one(seq![a1, a2, a3]), grade_one(seq![b1, b2, b3])) == single(
            BitVec { bits: 6 },
            wrap(a1 * b2 - a2 * b1),
        ) + single(BitVec { bits: 10 }, wrap(a1 * b3 - a3 * b1)) + single(BitVec { bits: 12 }, wrap(a2 * b3 - a3 * b2)),
{
    let x = grade_one(seq![a1, a2, a3]);
    let y = grade_one(seq![b1, b2, b3]);
    lemma_three_terms(a1, a2, a3);
    lemma_three_terms(b1, b2, b3);
    let m12 = wrap(a1 * b2 - a2 * b1);
    let m13 = wrap(a1 * b3 - a3 * b1);
    let m23 = wrap(a2 * b3 - a3 * b2);
    let r = single(BitVec { bits: 6 }, m12) + single(BitVec { bits: 10 }, m13) + single(BitVec { bits: 12 }, m23);
    lemma_wedge_canonical(x, y);
    let w = wedge(x, y);
    assert forall|k: u32| #[trigger] coef(w, k) == coef(r, k) by {
        lemma_wedge_coef(x, y, k);
        lemma_minors_residue(a1, a2, a3, b1, b2, b3, k);
        lemma_minors_list(m12, m13, m23, k);
        lemma_wrap(a1 * b2 - a2 * b1);
        lemma_wrap(a1 * b3 - a3 * b1);
        lemma_wrap(a2 * b3 - a3 * b2);
        lemma_i64_mod(0);
        lemma_i64_residue_eq(coef(w, k), coef(r, k));
    }
    lemma_minors_list(m12, m13, m23, 0);
    lemma_canonical_ext(w, r);
}

/// The coefficients of three single terms with distinct masks, listed in order.
proof fn lemma_coef_three(r1: Seq<(BitVec, i64)>, r2: Seq<(BitVec, i64)>, r3: Seq<(BitVec, i64)>, k: u32)
    requires
        r1.len() <= 1,
        r2.len() <= 1,
        r3.len() <= 1,
        canonical(r1 + r2 + r3),
        canonical(r1),
        canonical(r2),
        canonical(r3),
    ensures
        coef(r1 + r2 + r3, k) == coef(r1, k).wrapping_add(coef(r2, k)).wrapping_add(coef(r3, k)),
{
    let r12 = r1 + r2;
    assert(canonical(r12)) by {
        assert forall|p: int, q: int| 0 <= p < q < r12.len() implies r12[p].0.bits < r12[q].0.bits by {
            assert(r12[p] == (r1 + r2 + r3)[p]);
            assert(r12[q] == (r1 + r2 + r3)[q]);
        }
        assert forall|p: int| 0 <= p < r12.len() implies r12[p].1 != 0 by {
            assert(r12[p] == (r1 + r2 + r3)[p]);
        }
    }
    assert forall|p: int, q: int| 0 <= p < r1.len() && 0 <= q < r2.len() implies r1[p].0.bits < r2[q].0.bits by {
        assert(r1[p] == (r1 + r2 + r3)[p]);
        assert(r2[q] == (r1 + r2 + r3)[r1.len() + q]);
    }
    lemma_merge_append(r1, r2);
    lemma_coef_merge(r1, r2, k);
    assert forall|p: int, q: int| 0 <= p < r12.len() && 0 <= q < r3.len() implies r12[p].0.bits < r3[q].0.bits by {
        assert(r12[p] == (r1 + r2 + r3)[p]);
        assert(r3[q] == (r1 + r2 + r3)[r12.len() + q]);
    }
    lemma_merge_append(r12, r3);
    lemma_coef_merge(r12, r3, k);
}

/// The pair sum of two lists of at most three single terms, zero terms included.
proof fn lemma_pair_sum_3x3(
    p1: (BitVec, i64),
    p2: (BitVec, i64),
    p3: (BitVec, i64),
    q1: (BitVec, i64),
    q2: (BitVec, i64),
    q3: (BitVec, i64),
    k: u32,
)
    ensures
        pair_sum(
            single(p1.0, p1.1) + single(p2.0, p2.1) + single(p3.0, p3.1),
            single(q1.0, q1.1) + single(q2.0, q2.1) + single(q3.0, q3.1),
            k,
        ) == product_coef(p1, q1, k) + product_coef(p1, q2, k) + product_coef(p1, q3, k) + product_coef(p2, q1, k)
            + product_coef(p2, q2, k) + product_coef(p2, q3, k) + product_coef(p3, q1, k) + product_coef(p3, q2, k)
            + product_coef(p3, q3, k),
{
    let s1 = single(p1.0, p1.1);
    let s2 = single(p2.0, p2.1);
    let s3 = single(p3.0, p3.1);
    let t1 = single(q1.0, q1.1);
    let t2 = single(q2.0, q2.1);
    let t3 = single(q3.0, q3.1);
    let ys = t1 + t2 + t3;
    lemma_pair_sum_append(s1 + s2, s3, ys, k);
    lemma_pair_sum_append(s1, s2, ys, k);
    lemma_sums_single(p1, ys, q1, k);
    lemma_sums_single(p2, ys, q1, k);
    lemma_sums_single(p3, ys, q1, k);
    lemma_sums_single(p1, ys, q2, k);
    lemma_sums_single(p1, ys, q3, k);
    lemma_sums_single(p2, ys, q2, k);
    lemma_sums_single(p2, ys, q3, k);
    lemma_sums_single(p3, ys, q2, k);
    lemma_sums_single(p3, ys, q3, k);
    lemma_row_sum_append(p1, t1 + t2, t3, k);
    lemma_row_sum_append(p1, t1, t2, k);
    lemma_row_sum_append(p2, t1 + t2, t3, k);
    lemma_row_sum_append(p2, t1, t2, k);
    lemma_row_sum_append(p3, t1 + t2, t3, k);
    lemma_row_sum_append(p3, t1, t2, k);
}

/// Facts on the unit masks `e_1`, `e_2`, `e_3` and their unions.
proof fn lemma_unit_masks()
    ensures
        forall|i: int| 0 <= i < 32 ==> (#[trigger] bit(2, i) <==> i == 1),
        forall|i: int| 0 <= i < 32 ==> (#[trigger] bit(4, i) <==> i == 2),
        forall|i: int| 0 <= i < 32 ==> (#[trigger] bit(8, i) <==> i == 3),
        positions(2, 32) == seq![1int],
        positions(4, 32) == seq![2int],
        positions(8, 32) == seq![3int],
        2u32 ^ 4u32 == 6u32 && 4u32 ^ 2u32 == 6u32,
        2u32 ^ 8u32 == 10u32 && 8u32 ^ 2u32 == 10u32,
        4u32 ^ 8u32 == 12u32 && 8u32 ^ 4u32 == 12u32,
        sign(2, 4) == 1 && sign(4, 2) == -1,
        sign(2, 8) == 1 && sign(8, 2) == -1,
        sign(4, 8) == 1 && sign(8, 4) == -1,
        !disjoint(BitVec { bits: 2 }, BitVec { bits: 2 }),
        !disjoint(BitVec { bits: 4 }, BitVec { bits: 4 }),
        !disjoint(BitVec { bits: 8 }, BitVec { bits: 8 }),
        disjoint(BitVec { bits: 2 }, BitVec { bits: 4 }) && disjoint(BitVec { bits: 4 }, BitVec { bits: 2 }),
        disjoint(BitVec { bits: 2 }, BitVec { bits: 8 }) && disjoint(BitVec { bits: 8 }, BitVec { bits: 2 }),
        disjoint(BitVec { bits: 4 }, BitVec { bits: 8 }) && disjoint(BitVec { bits: 8 }, BitVec { bits: 4 }),
{
    assert(forall|i: int| 0 <= i < 32 ==> (#[trigger] bit(2, i) <==> i == 1)) by {
        assert(forall|i: u32| i < 32 ==> (((2u32 >> i) & 1u32 == 1u32) <==> i == 1)) by (bit_vector);
    }
    assert(forall|i: int| 0 <= i < 32 ==> (#[trigger] bit(4, i) <==> i == 2)) by {
        assert(forall|i: u32| i < 32 ==> (((4u32 >> i) & 1u32 == 1u32) <==> i == 2)) by (bit_vector);
    }
    assert(forall|i: int| 0 <= i < 32 ==> (#[trigger] bit(8, i) <==> i == 3)) by {
        assert(forall|i: u32| i < 32 ==> (((8u32 >> i) & 1u32 == 1u32) <==> i == 3)) by (bit_vector);
    }
    assert(2u32 ^ 4u32 == 6u32 && 4u32 ^ 2u32 == 6u32) by (bit_vector);
    assert(2u32 ^ 8u32 == 10u32 && 8u32 ^ 2u32 == 10u32) by (bit_vector);
    assert(4u32 ^ 8u32 == 12u32 && 8u32 ^ 4u32 == 12u32) by (bit_vector);
    lemma_positions_one(2, 1, 32);
    lemma_positions_one(4, 2, 32);
    lemma_positions_one(8, 3, 32);
    lemma_sign_single(2, 4, 1, 2);
    lemma_sign_single(4, 2, 2, 1);
    lemma_sign_single(2, 8, 1, 3);
    lemma_sign_single(8, 2, 3, 1);
    lemma_sign_single(4, 8, 2, 3);
    lemma_sign_single(8, 4, 3, 2);
    assert(BitVec { bits: 2 }.has(1) && BitVec { bits: 4 }.has(2) && BitVec { bits: 8 }.has(3));
}

/// Facts on the masks `e_1 ∧ e_2`, `e_1 ∧ e_3`, `e_2 ∧ e_3` against the unit masks.
proof fn lemma_pair_masks()
    ensures
        6u32 ^ 8u32 == 14u32 && 10u32 ^ 4u32 == 14u32 && 12u32 ^ 2u32 == 14u32,
        sign(6, 8) == 1 && sign(10, 4) == -1 && sign(12, 2) == 1,
        disjoint(BitVec { bits: 6 }, BitVec { bits: 8 }),
        disjoint(BitVec { bits: 10 }, BitVec { bits: 4 }),
        disjoint(BitVec { bits: 12 }, BitVec { bits: 2 }),
        !disjoint(BitVec { bits: 6 }, BitVec { bits: 2 }) && !disjoint(BitVec { bits: 6 }, BitVec { bits: 4 }),
        !disjoint(BitVec { bits: 10 }, BitVec { bits: 2 }) && !disjoint(BitVec { bits: 10 }, BitVec { bits: 8 }),
        !disjoint(BitVec { bits: 12 }, BitVec { bits: 4 }) && !disjoint(BitVec { bits: 12 }, BitVec { bits: 8 }),
{
    lemma_unit_masks();
    assert(6u32 ^ 8u32 == 14u32 && 10u32 ^ 4u32 == 14u32 && 12u32 ^ 2u32 == 14u32) by (bit_vector);
    assert(forall|i: int| 0 <= i < 32 ==> (#[trigger] bit(6, i) <==> (i == 1 || i == 2))) by {
        assert(forall|i: u32| i < 32 ==> (((6u32 >> i) & 1u32 == 1u32) <==> (i == 1 || i == 2))) by (bit_vector);
    }
    assert(forall|i: int| 0 <= i < 32 ==> (#[trigger] bit(10, i) <==> (i == 1 || i == 3))) by {
        assert(forall|i: u32| i < 32 ==> (((10u32 >> i) & 1u32 == 1u32) <==> (i == 1 || i == 3))) by (bit_vector);
    }
    assert(forall|i: int| 0 <= i < 32 ==> (#[trigger] bit(12, i) <==> (i == 2 || i == 3))) by {
        assert(forall|i: u32| i < 32 ==> (((12u32 >> i) & 1u32 == 1u32) <==> (i == 2 || i == 3))) by (bit_vector);
    }
    lemma_positions_two(6, 1, 2, 32);
    lemma_positions_two(10, 1, 3, 32);
    lemma_positions_two(12, 2, 3, 32);
    lemma_sign_two_one(6, 8, 1, 2, 3);
    lemma_sign_two_one(10, 4, 1, 3, 2);
    lemma_sign_two_one(12, 2, 2, 3, 1);
    assert(BitVec { bits: 6 }.has(1) && BitVec { bits: 6 }.has(2));
    assert(BitVec { bits: 10 }.has(1) && BitVec { bits: 10 }.has(3));
    assert(BitVec { bits: 12 }.has(2) && BitVec { bits: 12 }.has(3));
}

/// The residue of the products of the minors list with `z1 e_1 + z2 e_2 + z3 e_3`.
proof fn lemma_det_residue(m12: i64, m13: i64, m23: i64, z1: i64, z2: i64, z3: i64, k: u32)
    ensures
        pair_sum(
            single(BitVec { bits: 6 }, m12) + single(BitVec { bits: 10 }, m13) + single(BitVec { bits: 12 }, m23),
            single(BitVec { bits: 2 }, z1) + single(BitVec { bits: 4 }, z2) + single(BitVec { bits: 8 }, z3),
            k,
        ) % modulus() == (if k == 14 {
            m12 * z3 - m13 * z2 + m23 * z1
        } else {
            0
        }) % modulus(),
{
    let p1 = (BitVec { bits: 6 }, m12);
    let p2 = (BitVec { bits: 10 }, m13);
    let p3 = (BitVec { bits: 12 }, m23);
    let q1 = (BitVec { bits: 2 }, z1);
    let q2 = (BitVec { bits: 4 }, z2);
    let q3 = (BitVec { bits: 8 }, z3);
    lemma_pair_sum_3x3(p1, p2, p3, q1, q2, q3, k);
    lemma_pair_masks();
    lemma_unit_masks();
    lemma_product_coef(p1, q1, k);
    lemma_product_coef(p1, q2, k);
    lemma_product_coef(p1, q3, k);
    lemma_product_coef(p2, q1, k);
    lemma_product_coef(p2, q2, k);
    lemma_product_coef(p2, q3, k);
    lemma_product_coef(p3, q1, k);
    lemma_product_coef(p3, q2, k);
    lemma_product_coef(p3, q3, k);
    if k == 14 {
        let u = product_coef(p1, q3, k);
        let v = product_coef(p2, q2, k);
        let w = product_coef(p3, q1, k);
        lemma_mod_sum3(u, v, w, 1 * m12 * z3, -1 * m13 * z2, 1 * m23 * z1);
        assert(1 * m12 * z3 + -1 * m13 * z2 + 1 * m23 * z1 == m12 * z3 - m13 * z2 + m23 * z1) by (nonlinear_arith);
    }
}

/// Determinant identity in three dimensions: the wedge of the rows
/// `a`, `b`, `c` of a 3 × 3 matrix is `det · e_1 ∧ e_2 ∧ e_3`.
pub proof fn law_wedge_determinant_3(
    a1: i64,
    a2: i64,
    a3: i64,
    b1: i64,
    b2: i64,
    b3: i64,
    c1: i64,
    c2: i64,
    c3: i64,
)
    ensures
        wedge(wedge(grade_one(seq![a1, a2, a3]), grade_one(seq![b1, b2, b3])), grade_one(seq![c1, c2, c3])) == single(
            BitVec { bits: 14 },
            wrap(a1 * (b2 * c3 - b3 * c2) - a2 * (b1 * c3 - b3 * c1) + a3 * (b1 * c2 - b2 * c1)),
        ),
{
    let d12 = a1 * b2 - a2 * b1;
    let d13 = a1 * b3 - a3 * b1;
    let d23 = a2 * b3 - a3 * b2;
    let m12 = wrap(d12);
    let m13 = wrap(d13);
    let m23 = wrap(d23);
    lemma_wedge_minors_3(a1, a2, a3, b1, b2, b3);
    let v = single(BitVec { bits: 6 }, m12) + single(BitVec { bits: 10 }, m13) + single(BitVec { bits: 12 }, m23);
    let z = grade_one(seq![c1, c2, c3]);
    lemma_three_terms(c1, c2, c3);
    let det = a1 * (b2 * c3 - b3 * c2) - a2 * (b1 * c3 - b3 * c1) + a3 * (b1 * c2 - b2 * c1);
    let target = single(BitVec { bits: 14 }, wrap(det));
    lemma_wedge_canonical(v, z);
    let w = wedge(v, z);
    assert forall|k: u32| #[trigger] coef(w, k) == coef(target, k) by {
        lemma_wedge_coef(v, z, k);
        lemma_det_residue(m12, m13, m23, c1, c2, c3, k);
        lemma_coef_below(Seq::<(BitVec, i64)>::empty(), k);
        lemma_wrap(det);
        lemma_i64_mod(0);
        if wrap(det) != 0 {
            assert(target.drop_last() =~= Seq::<(BitVec, i64)>::empty());
        }
        if k == 14 {
            lemma_wrap(d12);
            lemma_wrap(d13);
            lemma_wrap(d23);
            lemma_mul_mod_noop_left(m12 as int, c3 as int, modulus());
            lemma_mul_mod_noop_left(d12, c3 as int, modulus());
            lemma_mul_mod_noop_left(m13 as int, c2 as int, modulus());
            lemma_mul_mod_noop_left(d13, c2 as int, modulus());
            lemma_mul_mod_noop_left(m23 as int, c1 as int, modulus());
            lemma_mul_mod_noop_left(d23, c1 as int, modulus());
            assert(-(m13 * c2) == (-1 * m13) * c2 && -(d13 * c2) == (-1 * d13) * c2) by (nonlinear_arith);
            lemma_mul_mod_noop_left(-1 * m13, c2 as int, modulus());
            lemma_mul_mod_noop_left(-1 * d13, c2 as int, modulus());
            lemma_mul_mod_noop_right(-1, m13 as int, modulus());
            lemma_mul_mod_noop_right(-1, d13, modulus());
            lemma_mod_sum3(m12 * c3, -(m13 * c2), m23 * c1, d12 * c3, -(d13 * c2), d23 * c1);
            assert(d12 * c3 == a1 * b2 * c3 - a2 * b1 * c3) by (nonlinear_arith)
                requires
                    d12 == a1 * b2 - a2 * b1,
            ;
            assert(d13 * c2 == a1 * b3 * c2 - a3 * b1 * c2) by (nonlinear_arith)
                requires
                    d13 == a1 * b3 - a3 * b1,
            ;
            assert(d23 * c1 == a2 * b3 * c1 - a3 * b2 * c1) by (nonlinear_arith)
                requires
                    d23 == a2 * b3 - a3 * b2,
            ;
            assert(a1 * (b2 * c3 - b3 * c2) == a1 * b2 * c3 - a1 * b3 * c2) by (nonlinear_arith);
            assert(a2 * (b1 * c3 - b3 * c1) == a2 * b1 * c3 - a2 * b3 * c1) by (nonlinear_arith);
            assert(a3 * (b1 * c2 - b2 * c1) == a3 * b1 * c2 - a3 * b2 * c1) by (nonlinear_arith);
            assert(d12 * c3 + -(d13 * c2) + d23 * c1 == det);
        }
        lemma_i64_residue_eq(coef(w, k), coef(target, k));
    }
    lemma_canonical_ext(w, target);
}

} // verus!
