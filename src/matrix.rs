//! Sparse matrices over a coefficient ring, stored row by row as sorted
//! lists of `(column, value)` pairs with no zero value.

use crate::extensor::{merge, wedge, ExTensor};
use crate::extensor::BitVec;
use vstd::prelude::*;

verus! {

/// What a matrix entry must offer: a zero, a zero test, a sum, a product and
/// a copy, each described over the entry's view.
pub trait Coefficient: View + Sized {
    /// The view of the additive zero.
    spec fn zero_v() -> Self::V;

    /// The view of a sum.
    spec fn add_v(a: Self::V, b: Self::V) -> Self::V;

    /// The view of a product.
    spec fn mul_v(a: Self::V, b: Self::V) -> Self::V;

    /// Adding a product whose left factor is zero changes nothing.
    proof fn lemma_zero_absorbs(acc: Self::V, y: Self::V)
        ensures
            Self::add_v(acc, Self::mul_v(Self::zero_v(), y)) == acc,
    ;

    fn additive_zero() -> (r: Self)
        ensures
            r@ == Self::zero_v(),
    ;

    fn is_additive_zero(&self) -> (r: bool)
        ensures
            r == (self@ == Self::zero_v()),
    ;

    fn plus(&self, o: &Self) -> (r: Self)
        ensures
            r@ == Self::add_v(self@, o@),
    ;

    fn times(&self, o: &Self) -> (r: Self)
        ensures
            r@ == Self::mul_v(self@, o@),
    ;

    fn copy_of(&self) -> (r: Self)
        ensures
            r@ == self@,
    ;
}

impl Coefficient for i64 {
    open spec fn zero_v() -> i64 {
        0
    }

    open spec fn add_v(a: i64, b: i64) -> i64 {
        a.wrapping_add(b)
    }

    open spec fn mul_v(a: i64, b: i64) -> i64 {
        a.wrapping_mul(b)
    }

    proof fn lemma_zero_absorbs(acc: i64, y: i64) {
    }

    fn additive_zero() -> (r: i64) {
        0
    }

    fn is_additive_zero(&self) -> (r: bool) {
        *self == 0
    }

    fn plus(&self, o: &i64) -> (r: i64) {
        self.wrapping_add(*o)
    }

    fn times(&self, o: &i64) -> (r: i64) {
        self.wrapping_mul(*o)
    }

    fn copy_of(&self) -> (r: i64) {
        *self
    }
}

impl Coefficient for u8 {
    open spec fn zero_v() -> u8 {
        0
    }

    open spec fn add_v(a: u8, b: u8) -> u8 {
        a.wrapping_add(b)
    }

    open spec fn mul_v(a: u8, b: u8) -> u8 {
        a.wrapping_mul(b)
    }

    proof fn lemma_zero_absorbs(acc: u8, y: u8) {
    }

    fn additive_zero() -> (r: u8) {
        0
    }

    fn is_additive_zero(&self) -> (r: bool) {
        *self == 0
    }

    fn plus(&self, o: &u8) -> (r: u8) {
        self.wrapping_add(*o)
    }

    fn times(&self, o: &u8) -> (r: u8) {
        self.wrapping_mul(*o)
    }

    fn copy_of(&self) -> (r: u8) {
        *self
    }
}

impl Coefficient for ExTensor {
    open spec fn zero_v() -> Seq<(BitVec, i64)> {
        Seq::empty()
    }

    open spec fn add_v(a: Seq<(BitVec, i64)>, b: Seq<(BitVec, i64)>) -> Seq<(BitVec, i64)> {
        merge(a, b)
    }

    open spec fn mul_v(a: Seq<(BitVec, i64)>, b: Seq<(BitVec, i64)>) -> Seq<(BitVec, i64)> {
        wedge(a, b)
    }

    proof fn lemma_zero_absorbs(acc: Seq<(BitVec, i64)>, y: Seq<(BitVec, i64)>) {
        assert(wedge(Seq::empty(), y) == Seq::<(BitVec, i64)>::empty());
        if acc.len() == 0 {
            assert(acc =~= Seq::<(BitVec, i64)>::empty());
        }
    }

    fn additive_zero() -> (r: ExTensor) {
        ExTensor::zero()
    }

    fn is_additive_zero(&self) -> (r: bool) {
        let r = self.is_zero();
        assert(r == (self@ =~= Seq::<(BitVec, i64)>::empty()));
        r
    }

    fn plus(&self, o: &ExTensor) -> (r: ExTensor) {
        self.add(o)
    }

    fn times(&self, o: &ExTensor) -> (r: ExTensor) {
        self.mul(o)
    }

    fn copy_of(&self) -> (r: ExTensor) {
        self.duplicate()
    }
}

/// The value stored for column `j` in `row`, or zero when there is none.
pub open spec fn lookup<T: Coefficient>(row: Seq<(usize, T)>, j: int) -> T::V
    decreases row.len(),
{
    if row.len() == 0 {
        T::zero_v()
    } else if row.last().0 == j {
        row.last().1@
    } else {
        lookup(row.drop_last(), j)
    }
}

/// Columns strictly increasing and below `ncols`, no zero value stored.
pub open spec fn row_ok<T: Coefficient>(row: Seq<(usize, T)>, ncols: int) -> bool {
    &&& forall|a: int, b: int| 0 <= a < b < row.len() ==> row[a].0 < row[b].0
    &&& forall|a: int| 0 <= a < row.len() ==> row[a].0 < ncols && row[a].1@ != T::zero_v()
}

/// The left-to-right sum `Σ_{j < n} lookup(row, j) · v[j]` over every column.
pub open spec fn row_dense<T: Coefficient>(row: Seq<(usize, T)>, v: Seq<T::V>, n: int) -> T::V
    decreases n,
{
    if n <= 0 {
        T::zero_v()
    } else {
        T::add_v(row_dense(row, v, n - 1), T::mul_v(lookup(row, n - 1), v[n - 1]))
    }
}

/// The left-to-right sum over the stored entries of `row` only.
pub open spec fn row_sparse<T: Coefficient>(row: Seq<(usize, T)>, v: Seq<T::V>) -> T::V
    decreases row.len(),
{
    if row.len() == 0 {
        T::zero_v()
    } else {
        T::add_v(row_sparse(row.drop_last(), v), T::mul_v(row.last().1@, v[row.last().0 as int]))
    }
}

/// A column that no entry holds reads as zero.
pub proof fn lemma_lookup_absent<T: Coefficient>(row: Seq<(usize, T)>, j: int)
    requires
        forall|q: int| 0 <= q < row.len() ==> row[q].0 != j,
    ensures
        lookup(row, j) == T::zero_v(),
    decreases row.len(),
{
    if row.len() > 0 {
        lemma_lookup_absent(row.drop_last(), j);
    }
}

/// A column held by entry `q` reads as that entry's value.
pub proof fn lemma_lookup_found<T: Coefficient>(row: Seq<(usize, T)>, q: int)
    requires
        forall|a: int, b: int| 0 <= a < b < row.len() ==> row[a].0 < row[b].0,
        0 <= q < row.len(),
    ensures
        lookup(row, row[q].0 as int) == row[q].1@,
    decreases row.len(),
{
    if q < row.len() - 1 {
        lemma_lookup_found(row.drop_last(), q);
    }
}

/// Columns that read as zero add nothing to the dense sum.
proof fn lemma_dense_tail<T: Coefficient>(row: Seq<(usize, T)>, v: Seq<T::V>, m: int, n: int)
    requires
        0 <= m <= n,
        forall|j: int| m <= j < n ==> lookup(row, j) == T::zero_v(),
    ensures
        row_dense(row, v, n) == row_dense(row, v, m),
    decreases n,
{
    if n > m {
        lemma_dense_tail(row, v, m, n - 1);
        T::lemma_zero_absorbs(row_dense(row, v, n - 1), v[n - 1]);
    }
}

/// Rows that read alike below `n` have the same dense sum.
proof fn lemma_dense_agree<T: Coefficient>(r1: Seq<(usize, T)>, r2: Seq<(usize, T)>, v: Seq<T::V>, n: int)
    requires
        forall|j: int| 0 <= j < n ==> lookup(r1, j) == lookup(r2, j),
    ensures
        row_dense(r1, v, n) == row_dense(r2, v, n),
    decreases n,
{
    if n > 0 {
        lemma_dense_agree(r1, r2, v, n - 1);
    }
}

/// Summing over the stored entries gives the dense sum over every column.
pub proof fn lemma_sparse_is_dense<T: Coefficient>(row: Seq<(usize, T)>, v: Seq<T::V>, n: int)
    requires
        forall|a: int, b: int| 0 <= a < b < row.len() ==> row[a].0 < row[b].0,
        forall|a: int| 0 <= a < row.len() ==> row[a].0 < n,
        0 <= n,
    ensures
        row_sparse(row, v) == row_dense(row, v, n),
    decreases row.len(),
{
    if row.len() == 0 {
        assert forall|j: int| 0 <= j < n implies lookup(row, j) == T::zero_v() by {
            lemma_lookup_absent(row, j);
        }
        lemma_dense_tail(row, v, 0, n);
    } else {
        let c = row.last().0 as int;
        let d = row.drop_last();
        assert forall|j: int| c < j < n implies lookup(row, j) == T::zero_v() by {
            lemma_lookup_absent(row, j);
        }
        lemma_dense_tail(row, v, c + 1, n);
        assert forall|j: int| 0 <= j < c implies lookup(row, j) == lookup(d, j) by {
        }
        lemma_dense_agree(row, d, v, c);
        lemma_sparse_is_dense(d, v, c);
    }
}

/// A sparse matrix: for each row, the sorted list of `(column, value)` pairs
/// of its nonzero entries.
#[derive(Debug)]
pub struct Matrix<T> {
    nrows: usize,
    ncols: usize,
    rows: Vec<Vec<(usize, T)>>,
}

/// The views of a vector's entries.
pub open spec fn views<T: View>(v: Seq<T>) -> Seq<T::V> {
    v.map_values(|x: T| x@)
}

impl<T: Coefficient> Matrix<T> {
    /// Number of rows.
    pub closed spec fn height(&self) -> nat {
        self.nrows as nat
    }

    /// Number of columns.
    pub closed spec fn width(&self) -> nat {
        self.ncols as nat
    }

    /// The rows have the declared shape and are well ordered.
    pub closed spec fn wf(&self) -> bool {
        &&& self.rows@.len() == self.nrows
        &&& forall|i: int| 0 <= i < self.nrows ==> row_ok(#[trigger] self.rows@[i]@, self.ncols as int)
    }

    /// The entry at row `i`, column `j` (zero when not stored).
    pub closed spec fn entry(&self, i: int, j: int) -> T::V {
        lookup(self.rows@[i]@, j)
    }

    /// Entry `i` of the product with a vector of views `v`, summed left to
    /// right over the first `n` columns of the dense matrix.
    pub open spec fn dense_dot(&self, v: Seq<T::V>, i: int, n: int) -> T::V
        decreases n,
    {
        if n <= 0 {
            T::zero_v()
        } else {
            T::add_v(self.dense_dot(v, i, n - 1), T::mul_v(self.entry(i, n - 1), v[n - 1]))
        }
    }

    proof fn lemma_dense_dot(&self, v: Seq<T::V>, i: int, n: int)
        ensures
            self.dense_dot(v, i, n) == row_dense(self.rows@[i]@, v, n),
        decreases n,
    {
        if n > 0 {
            self.lemma_dense_dot(v, i, n - 1);
        }
    }

    /// The `nrows × ncols` matrix whose entry `(i, j)` is `values[i * ncols + j]`.
    pub fn new(nrows: usize, ncols: usize, values: Vec<T>) -> (r: Matrix<T>)
        requires
            values.len() == nrows * ncols,
        ensures
            r.wf(),
            r.height() == nrows,
            r.width() == ncols,
            forall|i: int, j: int|
                0 <= i < nrows && 0 <= j < ncols ==> #[trigger] r.entry(i, j) == values@[i * ncols + j]@,
    {
        let mut rows: Vec<Vec<(usize, T)>> = Vec::new();
        let mut i: usize = 0;
        while i < nrows
            invariant
                i <= nrows,
                values.len() == nrows * ncols,
                rows@.len() == i,
                forall|a: int| 0 <= a < i ==> row_ok(#[trigger] rows@[a]@, ncols as int),
                forall|a: int, j: int|
                    0 <= a < i && 0 <= j < ncols ==> #[trigger] lookup(rows@[a]@, j) == values@[a * ncols + j]@,
            decreases nrows - i,
        {
            let mut row: Vec<(usize, T)> = Vec::new();
            let mut j: usize = 0;
            assert(i * ncols + ncols <= nrows * ncols) by (nonlinear_arith)
                requires
                    i < nrows,
            ;
            while j < ncols
                invariant
                    i < nrows,
                    j <= ncols,
                    values.len() == nrows * ncols,
                    i * ncols + ncols <= nrows * ncols,
                    row_ok(row@, ncols as int),
                    forall|q: int| 0 <= q < row@.len() ==> row@[q].0 < j,
                    forall|c: int| 0 <= c < j ==> lookup(row@, c) == values@[i * ncols + c]@,
                    forall|c: int| j <= c ==> lookup(row@, c) == T::zero_v(),
                decreases ncols - j,
            {
                let val = values[i * ncols + j].copy_of();
                let ghost old_row = row@;
                if !val.is_additive_zero() {
                    row.push((j, val));
                    assert(row@.drop_last() =~= old_row);
                    assert forall|c: int| c != j implies lookup(row@, c) == lookup(old_row, c) by {}
                    assert(lookup(row@, j as int) == values@[i * ncols + j]@);
                } else {
                    assert(lookup(row@, j as int) == values@[i * ncols + j]@);
                }
                assert forall|c: int| 0 <= c < j + 1 implies lookup(row@, c) == values@[i * ncols + c]@ by {
                    if c < j {
                        assert(lookup(old_row, c) == values@[i * ncols + c]@);
                    }
                }
                assert forall|c: int| j + 1 <= c implies lookup(row@, c) == T::zero_v() by {
                    assert(lookup(old_row, c) == T::zero_v());
                }
                j = j + 1;
            }
            rows.push(row);
            i = i + 1;
        }
        Matrix { nrows, ncols, rows }
    }

    /// The `nrows × ncols` zero matrix.
    pub fn zeros(nrows: usize, ncols: usize) -> (r: Matrix<T>)
        ensures
            r.wf(),
            r.height() == nrows,
            r.width() == ncols,
            forall|i: int, j: int| 0 <= i < nrows && 0 <= j < ncols ==> #[trigger] r.entry(i, j) == T::zero_v(),
    {
        let mut rows: Vec<Vec<(usize, T)>> = Vec::new();
        let mut i: usize = 0;
        while i < nrows
            invariant
                i <= nrows,
                rows@.len() == i,
                forall|a: int| 0 <= a < i ==> (#[trigger] rows@[a]@).len() == 0,
            decreases nrows - i,
        {
            rows.push(Vec::new());
            i = i + 1;
        }
        Matrix { nrows, ncols, rows }
    }

    /// A matrix from rows already in sparse form.
    pub fn from(nrows: usize, ncols: usize, rows: Vec<Vec<(usize, T)>>) -> (r: Matrix<T>)
        requires
            rows.len() == nrows,
            forall|i: int| 0 <= i < nrows ==> row_ok(#[trigger] rows@[i]@, ncols as int),
        ensures
            r.wf(),
            r.height() == nrows,
            r.width() == ncols,
            forall|i: int, j: int| 0 <= i < nrows && 0 <= j < ncols ==> #[trigger] r.entry(i, j) == lookup(rows@[i]@, j),
    {
        Matrix { nrows, ncols, rows }
    }

    /// Number of rows.
    pub fn nrows(&self) -> (r: usize)
        ensures
            r == self.height(),
    {
        self.nrows
    }

    /// Number of columns.
    pub fn ncols(&self) -> (r: usize)
        ensures
            r == self.width(),
    {
        self.ncols
    }

    /// The sparse rows.
    pub fn rows(&self) -> (r: &Vec<Vec<(usize, T)>>)
        requires
            self.wf(),
        ensures
            r.len() == self.height(),
            forall|i: int, j: int| 0 <= i < self.height() && 0 <= j < self.width() ==> #[trigger] self.entry(i, j) == lookup(r@[i]@, j),
            forall|i: int| 0 <= i < self.height() ==> row_ok(#[trigger] r@[i]@, self.width() as int),
    {
        &self.rows
    }

    /// A copy of the entry at `(i, j)`.
    pub fn get(&self, i: usize, j: usize) -> (r: T)
        requires
            self.wf(),
            i < self.height(),
        ensures
            r@ == self.entry(i as int, j as int),
    {
        let row = &self.rows[i];
        assert(row@ == self.rows@[i as int]@);
        let mut p: usize = row.len();
        assert(row@.subrange(0, p as int) =~= row@);
        while p > 0
            invariant
                p <= row.len(),
                i < self.rows@.len(),
                row@ == self.rows@[i as int]@,
                lookup(row@, j as int) == lookup(row@.subrange(0, p as int), j as int),
            decreases p,
        {
            assert(row@.subrange(0, p as int).drop_last() =~= row@.subrange(0, p - 1));
            assert(row@.subrange(0, p as int).last() == row@[p - 1]);
            if row[p - 1].0 == j {
                let r = row[p - 1].1.copy_of();
                assert(lookup(row@.subrange(0, p as int), j as int) == row@[p - 1].1@);
                assert(row@ == self.rows@[i as int]@);
                return r;
            }
            p = p - 1;
        }
        T::additive_zero()
    }

    /// Stores `val` at `(i, j)`; storing zero removes the entry.
    pub fn set(&mut self, i: usize, j: usize, val: T)
        requires
            old(self).wf(),
            i < old(self).height(),
            j < old(self).width(),
        ensures
            final(self).wf(),
            final(self).height() == old(self).height(),
            final(self).width() == old(self).width(),
            forall|a: int, b: int|
                0 <= a < old(self).height() && 0 <= b < old(self).width() ==> #[trigger] final(self).entry(a, b) == if a == i && b == j {
                    val@
                } else {
                    old(self).entry(a, b)
                },
    {
        let ncols = self.ncols;
        let mut row: Vec<(usize, T)> = Vec::new();
        let mut c: usize = 0;
        while c < ncols
            invariant
                self.wf(),
                i < self.height(),
                j < ncols,
                ncols == self.width(),
                c <= ncols,
                row_ok(row@, ncols as int),
                forall|p: int| 0 <= p < row@.len() ==> row@[p].0 < c,
                forall|x: int| 0 <= x < c ==> lookup(row@, x) == if x == j {
                    val@
                } else {
                    self.entry(i as int, x)
                },
                forall|x: int| c <= x ==> lookup(row@, x) == T::zero_v(),
            decreases ncols - c,
        {
            let x = if c == j {
                val.copy_of()
            } else {
                self.get(i, c)
            };
            let ghost before = row@;
            if !x.is_additive_zero() {
                row.push((c, x));
                assert(row@.drop_last() =~= before);
            }
            assert forall|y: int| 0 <= y < c + 1 implies lookup(row@, y) == if y == j {
                val@
            } else {
                self.entry(i as int, y)
            } by {
                if y < c {
                    assert(lookup(before, y) == lookup(row@, y));
                }
            }
            assert forall|y: int| c + 1 <= y implies lookup(row@, y) == T::zero_v() by {
                assert(lookup(before, y) == T::zero_v());
            }
            c = c + 1;
        }
        let ghost old_self = *self;
        self.rows.set(i, row);
        assert forall|a: int, b: int|
            0 <= a < old_self.height() && 0 <= b < old_self.width() implies #[trigger] self.entry(a, b) == if a == i && b == j {
                val@
            } else {
                old_self.entry(a, b)
            } by {
            if a != i {
                assert(self.rows@[a] == old_self.rows@[a]);
            }
        }
    }

    /// The columns of the nonzero entries of row `i`, in ascending order.
    pub fn neighbors_of(&self, i: usize) -> (r: Vec<usize>)
        requires
            self.wf(),
            i < self.height(),
        ensures
            forall|a: int, b: int| 0 <= a < b < r.len() ==> r[a] < r[b],
            forall|j: usize| r@.contains(j) <==> (j < self.width() && self.entry(i as int, j as int) != T::zero_v()),
    {
        let row = &self.rows[i];
        assert(row_ok(row@, self.ncols as int));
        let mut res: Vec<usize> = Vec::new();
        let mut p: usize = 0;
        while p < row.len()
            invariant
                p <= row.len(),
                res@ == row@.subrange(0, p as int).map_values(|t: (usize, T)| t.0),
            decreases row.len() - p,
        {
            res.push(row[p].0);
            p = p + 1;
            assert(res@ =~= row@.subrange(0, p as int).map_values(|t: (usize, T)| t.0));
        }
        assert(row@.subrange(0, p as int) =~= row@);
        assert forall|j: usize| res@.contains(j) <==> (j < self.width() && self.entry(i as int, j as int) != T::zero_v()) by {
            if res@.contains(j) {
                let q = choose|q: int| 0 <= q < res@.len() && res@[q] == j;
                lemma_lookup_found(row@, q);
                assert(row@[q].0 < self.ncols);
            }
            if j < self.width() && self.entry(i as int, j as int) != T::zero_v() {
                if forall|q: int| 0 <= q < row@.len() ==> row@[q].0 != j {
                    lemma_lookup_absent(row@, j as int);
                } else {
                    let q = choose|q: int| 0 <= q < row@.len() && row@[q].0 == j;
                    assert(res@[q] == j);
                }
            }
        }
        res
    }

    /// The product `self · v`: entry `i` is `Σ_j A[i,j] · v[j]`, summed left to
    /// right with the matrix entry as left factor. Only stored entries are visited.
    pub fn mul_vec(&self, v: &Vec<T>) -> (r: Vec<T>)
        requires
            self.wf(),
            v.len() == self.width(),
        ensures
            r.len() == self.height(),
            forall|i: int| 0 <= i < self.height() ==> (#[trigger] r@[i])@ == self.dense_dot(views(v@), i, self.width() as int),
    {
        let ghost vv = views(v@);
        let mut res: Vec<T> = Vec::new();
        let mut i: usize = 0;
        while i < self.nrows
            invariant
                self.wf(),
                v.len() == self.width(),
                vv == views(v@),
                i <= self.nrows,
                res.len() == i,
                forall|a: int| 0 <= a < i ==> (#[trigger] res@[a])@ == self.dense_dot(vv, a, self.width() as int),
            decreases self.nrows - i,
        {
            let row = &self.rows[i];
            assert(row_ok(row@, self.ncols as int));
            let mut acc = T::additive_zero();
            let mut p: usize = 0;
            while p < row.len()
                invariant
                    p <= row.len(),
                    row_ok(row@, self.ncols as int),
                    v.len() == self.ncols,
                    vv == views(v@),
                    acc@ == row_sparse(row@.subrange(0, p as int), vv),
                decreases row.len() - p,
            {
                let e = &row[p];
                let prod = e.1.times(&v[e.0]);
                acc = acc.plus(&prod);
                assert(row@.subrange(0, p + 1).drop_last() =~= row@.subrange(0, p as int));
                p = p + 1;
            }
            assert(row@.subrange(0, p as int) =~= row@);
            proof {
                lemma_sparse_is_dense(row@, vv, self.ncols as int);
                self.lemma_dense_dot(vv, i as int, self.ncols as int);
            }
            res.push(acc);
            i = i + 1;
        }
        res
    }
}

impl<T: Coefficient> Matrix<T> {
    /// Column `j` of the dense matrix.
    pub open spec fn column(&self, j: int) -> Seq<T::V> {
        Seq::new(self.height(), |k: int| self.entry(k, j))
    }

    /// A copy of column `j`.
    pub fn column_of(&self, j: usize) -> (r: Vec<T>)
        requires
            self.wf(),
        ensures
            views(r@) == self.column(j as int),
    {
        let mut res: Vec<T> = Vec::new();
        let mut k: usize = 0;
        while k < self.nrows()
            invariant
                self.wf(),
                k <= self.height(),
                res.len() == k,
                forall|q: int| 0 <= q < k ==> (#[trigger] res@[q])@ == self.entry(q, j as int),
            decreases self.height() - k,
        {
            res.push(self.get(k, j));
            k = k + 1;
        }
        assert(views(res@) =~= self.column(j as int));
        res
    }

    /// The product `self · o`: entry `(i, j)` is `Σ_k A[i,k] · B[k,j]`, summed
    /// left to right.
    pub fn mul_mat(&self, o: &Matrix<T>) -> (r: Matrix<T>)
        requires
            self.wf(),
            o.wf(),
            self.width() == o.height(),
        ensures
            r.wf(),
            r.height() == self.height(),
            r.width() == o.width(),
            forall|i: int, j: int|
                0 <= i < self.height() && 0 <= j < o.width() ==> #[trigger] r.entry(i, j) == self.dense_dot(
                    o.column(j),
                    i,
                    self.width() as int,
                ),
    {
        let h = self.nrows();
        let w = o.ncols();
        let mut cols: Vec<Vec<T>> = Vec::new();
        let mut j: usize = 0;
        while j < w
            invariant
                self.wf(),
                o.wf(),
                self.width() == o.height(),
                w == o.width(),
                h == self.height(),
                j <= w,
                cols.len() == j,
                forall|c: int|
                    0 <= c < j ==> (#[trigger] cols@[c]).len() == h && forall|i: int|
                        0 <= i < h ==> (#[trigger] cols@[c]@[i])@ == self.dense_dot(o.column(c), i, self.width() as int),
            decreases w - j,
        {
            let col = o.column_of(j);
            assert(col@.len() == views(col@).len());
            let prod = self.mul_vec(&col);
            assert(views(col@) == o.column(j as int));
            cols.push(prod);
            j = j + 1;
        }
        let mut rows: Vec<Vec<(usize, T)>> = Vec::new();
        let mut i: usize = 0;
        while i < h
            invariant
                i <= h,
                h == self.height(),
                w == o.width(),
                cols.len() == w,
                forall|c: int|
                    0 <= c < w ==> (#[trigger] cols@[c]).len() == h && forall|x: int|
                        0 <= x < h ==> (#[trigger] cols@[c]@[x])@ == self.dense_dot(o.column(c), x, self.width() as int),
                rows@.len() == i,
                forall|a: int| 0 <= a < i ==> row_ok(#[trigger] rows@[a]@, w as int),
                forall|a: int, c: int|
                    0 <= a < i && 0 <= c < w ==> #[trigger] lookup(rows@[a]@, c) == self.dense_dot(o.column(c), a, self.width() as int),
            decreases h - i,
        {
            let mut row: Vec<(usize, T)> = Vec::new();
            let mut c: usize = 0;
            while c < w
                invariant
                    i < h,
                    c <= w,
                    cols.len() == w,
                    forall|c2: int|
                        0 <= c2 < w ==> (#[trigger] cols@[c2]).len() == h && forall|x: int|
                            0 <= x < h ==> (#[trigger] cols@[c2]@[x])@ == self.dense_dot(o.column(c2), x, self.width() as int),
                    row_ok(row@, w as int),
                    forall|p: int| 0 <= p < row@.len() ==> row@[p].0 < c,
                    forall|y: int| 0 <= y < c ==> lookup(row@, y) == self.dense_dot(o.column(y), i as int, self.width() as int),
                    forall|y: int| c <= y ==> lookup(row@, y) == T::zero_v(),
                decreases w - c,
            {
                let val = cols[c][i].copy_of();
                let ghost before = row@;
                assert(val@ == self.dense_dot(o.column(c as int), i as int, self.width() as int));
                if !val.is_additive_zero() {
                    row.push((c, val));
                    assert(row@.drop_last() =~= before);
                }
                assert forall|y: int| 0 <= y < c + 1 implies lookup(row@, y) == self.dense_dot(o.column(y), i as int, self.width() as int) by {
                    if y < c {
                        assert(lookup(before, y) == lookup(row@, y));
                    }
                }
                assert forall|y: int| c + 1 <= y implies lookup(row@, y) == T::zero_v() by {
                    assert(lookup(before, y) == T::zero_v());
                }
                c = c + 1;
            }
            rows.push(row);
            i = i + 1;
        }
        Matrix { nrows: h, ncols: w, rows }
    }
}

impl Matrix<u8> {
    /// The coded matrix: each nonzero entry of row `i` replaced by `coding[i]`,
    /// so the coding follows the source vertex of every edge.
    pub fn add_coding(&self, coding: &Vec<ExTensor>) -> (r: Matrix<ExTensor>)
        requires
            self.wf(),
            coding.len() == self.height(),
        ensures
            r.wf(),
            r.height() == self.height(),
            r.width() == self.width(),
            forall|i: int, j: int|
                0 <= i < self.height() && 0 <= j < self.width() ==> #[trigger] r.entry(i, j) == if self.entry(i, j) != 0 {
                    coding@[i]@
                } else {
                    Seq::<(BitVec, i64)>::empty()
                },
    {
        let mut rows: Vec<Vec<(usize, ExTensor)>> = Vec::new();
        let mut i: usize = 0;
        while i < self.nrows
            invariant
                self.wf(),
                coding.len() == self.nrows,
                i <= self.nrows,
                rows@.len() == i,
                forall|a: int| 0 <= a < i ==> row_ok(#[trigger] rows@[a]@, self.ncols as int),
                forall|a: int, j: int|
                    0 <= a < i && 0 <= j < self.ncols ==> #[trigger] lookup(rows@[a]@, j) == if self.entry(a, j) != 0 {
                        coding@[a]@
                    } else {
                        Seq::<(BitVec, i64)>::empty()
                    },
            decreases self.nrows - i,
        {
            let src = &self.rows[i];
            assert(row_ok(src@, self.ncols as int));
            let c = &coding[i];
            let mut row: Vec<(usize, ExTensor)> = Vec::new();
            if !c.is_zero() {
                let mut p: usize = 0;
                while p < src.len()
                    invariant
                        p <= src.len(),
                        !(c@.len() == 0),
                        row_ok(src@, self.ncols as int),
                        row@.len() == p,
                        forall|q: int| 0 <= q < p ==> (#[trigger] row@[q]).0 == src@[q].0 && row@[q].1@ == c@,
                    decreases src.len() - p,
                {
                    row.push((src[p].0, c.duplicate()));
                    p = p + 1;
                }
            }
            proof {
                assert(row_ok(row@, self.ncols as int));
                assert forall|j: int| 0 <= j < self.ncols implies lookup(row@, j) == if self.entry(i as int, j) != 0 {
                    coding@[i as int]@
                } else {
                    Seq::<(BitVec, i64)>::empty()
                } by {
                    if exists|q: int| 0 <= q < src@.len() && src@[q].0 == j {
                        let q = choose|q: int| 0 <= q < src@.len() && src@[q].0 == j;
                        lemma_lookup_found(src@, q);
                        if row@.len() > 0 {
                            lemma_lookup_found(row@, q);
                        } else {
                            lemma_lookup_absent(row@, j);
                        }
                    } else {
                        lemma_lookup_absent(src@, j);
                        lemma_lookup_absent(row@, j);
                    }
                }
            }
            rows.push(row);
            i = i + 1;
        }
        Matrix { nrows: self.nrows, ncols: self.ncols, rows }
    }
}

} // verus!
