//! Graphs as square {0,1} adjacency matrices, and the walk sum of a coded graph.

use crate::extensor::{merge, wedge, BitVec, ExTensor};
use crate::matrix::{lookup, row_ok, views, Matrix};
use crate::tsv::{
    edge_before, is_edge_line, is_percent, line_edge, line_ok, lines, lines_ok, number, parse_number, split_into_lines,
    split_into_tokens, tokens, tsv_edge, tsv_order, tsv_valid, without_percent,
};
use vstd::prelude::*;

verus! {

/// Why a graph could not be read.
#[derive(Debug, PartialEq, Eq, Structural)]
pub enum GraphError {
    /// The bytes do not encode a graph: a bad header, a byte out of range, or
    /// too few bytes for the announced order.
    MalformedInput,
}

/// A graph on vertices `0..n`, held as its adjacency matrix.
#[derive(Debug)]
pub struct Graph {
    adj: Matrix<u8>,
}

/// Entry `(i, j)` of the coded adjacency matrix: `c[i]` on an edge `i → j`,
/// zero elsewhere.
pub open spec fn coded_entry(g: Graph, c: Seq<Seq<(BitVec, i64)>>, i: int, j: int) -> Seq<(BitVec, i64)> {
    if g.edge(i, j) {
        c[i]
    } else {
        Seq::empty()
    }
}

/// Entry `i` of the product of the coded matrix with `v`, summed left to right
/// over the first `n` columns, the matrix entry as left factor.
pub open spec fn coded_dot(
    g: Graph,
    c: Seq<Seq<(BitVec, i64)>>,
    v: Seq<Seq<(BitVec, i64)>>,
    i: int,
    n: int,
) -> Seq<(BitVec, i64)>
    decreases n,
{
    if n <= 0 {
        Seq::empty()
    } else {
        merge(coded_dot(g, c, v, i, n - 1), wedge(coded_entry(g, c, i, n - 1), v[n - 1]))
    }
}

/// One step of the walk: the coded matrix times `v`.
pub open spec fn coded_step(g: Graph, c: Seq<Seq<(BitVec, i64)>>, v: Seq<Seq<(BitVec, i64)>>) -> Seq<Seq<(BitVec, i64)>> {
    Seq::new(g.order(), |i: int| coded_dot(g, c, v, i, g.order() as int))
}

/// `A'^steps · c` for the coded matrix `A'` of `g` under the coding `c`.
pub open spec fn walk(g: Graph, c: Seq<Seq<(BitVec, i64)>>, steps: nat) -> Seq<Seq<(BitVec, i64)>>
    decreases steps,
{
    if steps == 0 {
        c
    } else {
        coded_step(g, c, walk(g, c, (steps - 1) as nat))
    }
}

/// The left-to-right sum of the first `n` entries of `v`.
pub open spec fn total(v: Seq<Seq<(BitVec, i64)>>, n: int) -> Seq<(BitVec, i64)>
    decreases n,
{
    if n <= 0 {
        Seq::empty()
    } else {
        merge(total(v, n - 1), v[n - 1])
    }
}

/// The walk sum `Σ_i (A'^{k-1} · c)_i` of `g` under the coding `c`.
pub open spec fn walk_sum(g: Graph, c: Seq<Seq<(BitVec, i64)>>, k: nat) -> Seq<(BitVec, i64)> {
    total(walk(g, c, (k - 1) as nat), g.order() as int)
}

/// The bytes `>>graph6<<`.
pub open spec fn graph6_header() -> Seq<u8> {
    seq![62u8, 62u8, 103u8, 114u8, 97u8, 112u8, 104u8, 54u8, 60u8, 60u8]
}

/// A printable graph6 byte, holding six bits.
pub open spec fn g6_ok(b: u8) -> bool {
    63 <= b <= 126
}

/// Where the order is written: after the optional header.
pub open spec fn g6_start(s: Seq<u8>) -> int {
    if s.len() >= 10 && s.subrange(0, 10) == graph6_header() {
        10
    } else {
        0
    }
}

/// The order `n` written at offset `o`, and the offset after it: one byte
/// `n + 63` for `n <= 62`, else `126` and three bytes of six bits each, high
/// first.
pub open spec fn order_at(s: Seq<u8>, o: int) -> Option<(int, int)> {
    if o < 0 || s.len() <= o || !g6_ok(s[o]) {
        None
    } else if s[o] < 126 {
        Some((s[o] - 63, o + 1))
    } else if s.len() < o + 4 || !g6_ok(s[o + 1]) || !g6_ok(s[o + 2]) || !g6_ok(s[o + 3]) {
        None
    } else {
        Some(((s[o + 1] - 63) * 4096 + (s[o + 2] - 63) * 64 + (s[o + 3] - 63), o + 4))
    }
}

/// The order of a graph6 graph and the offset of its adjacency bits.
pub open spec fn g6_order(s: Seq<u8>) -> Option<(int, int)> {
    order_at(s, g6_start(s))
}

/// The bytes `>>sparse6<<`.
pub open spec fn sparse6_header() -> Seq<u8> {
    seq![62u8, 62u8, 115u8, 112u8, 97u8, 114u8, 115u8, 101u8, 54u8, 60u8, 60u8]
}

/// The order of a sparse6 graph: after the optional `>>sparse6<<` header, a
/// `:` and the order.
pub open spec fn s6_order(s: Seq<u8>) -> Option<int> {
    let o = if s.len() >= 11 && s.subrange(0, 11) == sparse6_header() {
        11
    } else {
        0
    };
    if s.len() <= o || s[o] != 58 {
        None
    } else {
        match order_at(s, o + 1) {
            Some((n, _)) => Some(n),
            None => None,
        }
    }
}

/// `0 + 1 + … + (h - 1)`: the number of vertex pairs below `h`.
pub open spec fn tri(h: int) -> int
    decreases h,
{
    if h <= 0 {
        0
    } else {
        tri(h - 1) + (h - 1)
    }
}

/// Number of bytes that hold the `tri(n)` adjacency bits.
pub open spec fn g6_body_len(n: int) -> int {
    (tri(n) + 5) / 6
}

/// The whole input is a well-formed graph6 graph.
pub open spec fn g6_valid(s: Seq<u8>) -> bool {
    match g6_order(s) {
        Some((n, start)) => s.len() >= start + g6_body_len(n) && forall|q: int|
            start <= q < start + g6_body_len(n) ==> g6_ok(#[trigger] s[q]),
        None => false,
    }
}

/// Adjacency bit `t` of the body starting at `start`: bit `5 - t % 6` of byte
/// `t / 6`, less 63.
pub open spec fn g6_bit(s: Seq<u8>, start: int, t: int) -> bool {
    (((s[start + t / 6] - 63) as u8) >> ((5 - t % 6) as u8)) & 1u8 == 1u8
}

/// Whether the graph6 body marks the pair `{i, j}` as an edge; the pair
/// `lo < hi` is bit `tri(hi) + lo`.
pub open spec fn g6_edge(s: Seq<u8>, start: int, i: int, j: int) -> bool {
    if i == j {
        false
    } else if i < j {
        g6_bit(s, start, tri(j) + i)
    } else {
        g6_bit(s, start, tri(i) + j)
    }
}

/// `tri` is monotone and bounded by the square.
pub proof fn lemma_tri(a: int, b: int)
    requires
        0 <= a <= b,
    ensures
        tri(a) <= tri(b),
        tri(b) <= b * b,
        tri(a) >= 0,
    decreases b,
{
    if b > 0 {
        if a < b {
            lemma_tri(a, b - 1);
        } else {
            lemma_tri(a - 1, b - 1);
        }
        lemma_tri(0, b - 1);
        assert((b - 1) * (b - 1) + (b - 1) <= b * b) by (nonlinear_arith)
            requires
                b >= 1,
        ;
    }
}

impl Graph {
    #[verifier::type_invariant]
    closed spec fn inv(self) -> bool {
        &&& self.adj.wf()
        &&& self.adj.height() == self.adj.width()
        &&& self.adj.height() <= i64::MAX
    }

    /// Number of vertices.
    pub closed spec fn order(self) -> nat {
        self.adj.height()
    }

    /// Whether there is an edge `i → j`.
    pub closed spec fn edge(self, i: int, j: int) -> bool {
        self.adj.entry(i, j) != 0u8
    }

    /// The graph on `n` vertices with an edge `i → j` exactly where
    /// `data[i * n + j]` is nonzero.
    pub fn from(n: usize, data: Vec<u8>) -> (g: Graph)
        requires
            data.len() == n * n,
        ensures
            g.order() == n,
            forall|i: int, j: int| 0 <= i < n && 0 <= j < n ==> #[trigger] g.edge(i, j) == (data@[i * n + j] != 0),
    {
        assert(n <= i64::MAX) by (nonlinear_arith)
            requires
                n * n <= usize::MAX,
                usize::MAX <= u64::MAX,
        ;
        let adj = Matrix::new(n, n, data);
        Graph { adj }
    }

    /// Reads a graph in the graph6 format: an optional `>>graph6<<` header,
    /// the order, then the upper triangle packed six bits per byte, column by
    /// column. Bytes after the last adjacency byte are ignored.
    pub fn from_graph6(s: &[u8]) -> (r: Result<Graph, GraphError>)
        ensures
            r is Ok <==> g6_valid(s@),
            r matches Ok(g) ==> ({
                let (n, start) = g6_order(s@).unwrap();
                &&& g.order() == n
                &&& forall|i: int, j: int| 0 <= i < n && 0 <= j < n ==> #[trigger] g.edge(i, j) == g6_edge(s@, start, i, j)
            }),
    {
        let mut o: usize = 0;
        if s.len() >= 10 && s[0] == 62 && s[1] == 62 && s[2] == 103 && s[3] == 114 && s[4] == 97 && s[5] == 112
            && s[6] == 104 && s[7] == 54 && s[8] == 60 && s[9] == 60 {
            assert(s@.subrange(0, 10) =~= graph6_header());
            o = 10;
        } else if s.len() >= 10 {
            assert(s@.subrange(0, 10) != graph6_header()) by {
                if s@.subrange(0, 10) == graph6_header() {
                    assert forall|q: int| 0 <= q < 10 implies s@[q] == graph6_header()[q] by {
                        assert(s@.subrange(0, 10)[q] == s@[q]);
                    }
                }
            }
        }
        assert(o == g6_start(s@));
        let (n, start) = match read_order(s, o) {
            Some(p) => p,
            None => {
                return Err(GraphError::MalformedInput);
            },
        };
        assert(g6_order(s@) == Some((n as int, start as int)));
        assert(n <= 262143);
        // tri(h) for h = 0..=n
        let mut tris: Vec<u64> = Vec::new();
        let mut acc: u64 = 0;
        let mut h: usize = 0;
        proof {
            lemma_tri(0, n as int);
        }
        while h <= n
            invariant
                h <= n + 1,
                n <= 262143,
                tris@.len() == h,
                acc == tri(h as int),
                forall|q: int| 0 <= q < h ==> tris@[q] == tri(q),
            decreases n + 1 - h,
        {
            tris.push(acc);
            proof {
                lemma_tri(h as int, n as int);
                lemma_tri(h as int + 1, n as int + 1);
                assert((n + 1) * (n + 1) <= 262144 * 262144) by (nonlinear_arith)
                    requires
                        n <= 262143,
                ;
            }
            acc = acc + h as u64;
            h = h + 1;
        }
        proof {
            lemma_tri(0, n as int);
            assert(n * n <= 262143 * 262143) by (nonlinear_arith)
                requires
                    n <= 262143,
            ;
        }
        let body_bits = tris[n];
        let body_len = (body_bits + 5) / 6;
        if ((s.len() - start) as u64) < body_len {
            return Err(GraphError::MalformedInput);
        }
        let body_end = start + body_len as usize;
        let mut q: usize = start;
        while q < body_end
            invariant
                g6_order(s@) == Some((n as int, start as int)),
                start <= q <= body_end,
                body_end <= s.len(),
                body_end == start + g6_body_len(n as int),
                forall|p: int| start <= p < q ==> g6_ok(#[trigger] s@[p]),
            decreases body_end - q,
        {
            if s[q] < 63 || s[q] > 126 {
                return Err(GraphError::MalformedInput);
            }
            q = q + 1;
        }
        assert(g6_valid(s@));
        let mut rows: Vec<Vec<(usize, u8)>> = Vec::new();
        let mut r: usize = 0;
        while r < n
            invariant
                r <= n,
                n <= 262143,
                tris@.len() == n + 1,
                forall|x: int| 0 <= x <= n ==> tris@[x] == tri(x),
                body_end == start + g6_body_len(n as int),
                body_end <= s.len(),
                forall|p: int| start <= p < body_end ==> g6_ok(#[trigger] s@[p]),
                rows@.len() == r,
                forall|a: int| 0 <= a < r ==> row_ok(#[trigger] rows@[a]@, n as int),
                forall|a: int, j: int|
                    0 <= a < r && 0 <= j < n ==> (#[trigger] lookup(rows@[a]@, j) != 0u8) == g6_edge(s@, start as int, a, j),
            decreases n - r,
        {
            let mut row: Vec<(usize, u8)> = Vec::new();
            let mut c: usize = 0;
            while c < n
                invariant
                    r < n,
                    c <= n,
                    n <= 262143,
                    tris@.len() == n + 1,
                    forall|x: int| 0 <= x <= n ==> tris@[x] == tri(x),
                    body_end == start + g6_body_len(n as int),
                    body_end <= s.len(),
                    forall|p: int| start <= p < body_end ==> g6_ok(#[trigger] s@[p]),
                    row_ok(row@, n as int),
                    forall|p: int| 0 <= p < row@.len() ==> row@[p].0 < c,
                    forall|j: int| 0 <= j < c ==> (lookup(row@, j) != 0u8) == g6_edge(s@, start as int, r as int, j),
                    forall|j: int| c <= j ==> lookup(row@, j) == 0u8,
                decreases n - c,
            {
                let ghost old_row = row@;
                if c != r {
                    let (lo, hi) = if r < c {
                        (r, c)
                    } else {
                        (c, r)
                    };
                    proof {
                        lemma_tri(hi as int + 1, n as int);
                        lemma_tri(0, n as int);
                        assert(n * n <= 262143 * 262143) by (nonlinear_arith)
                            requires
                                n <= 262143,
                        ;
                        assert(tri(hi as int + 1) == tri(hi as int) + hi);
                    }
                    let t: u64 = tris[hi] + lo as u64;
                    assert(t < tri(n as int));
                    let byte = s[start + (t / 6) as usize];
                    let bit = ((byte - 63) >> ((5 - t % 6) as u8)) & 1u8 == 1u8;
                    assert(bit == g6_edge(s@, start as int, r as int, c as int));
                    if bit {
                        row.push((c, 1u8));
                        assert(row@.drop_last() =~= old_row);
                    }
                }
                assert forall|j: int| 0 <= j < c + 1 implies (lookup(row@, j) != 0u8) == g6_edge(s@, start as int, r as int, j) by {
                    if j < c {
                        assert(lookup(old_row, j) == lookup(row@, j));
                    }
                }
                assert forall|j: int| c + 1 <= j implies lookup(row@, j) == 0u8 by {
                    assert(lookup(old_row, j) == 0u8);
                }
                c = c + 1;
            }
            rows.push(row);
            r = r + 1;
        }
        let adj = Matrix::from(n, n, rows);
        Ok(Graph { adj })
    }

    /// Reads an edge list: the second line gives the vertex count (its second
    /// number, after any `%`), and every later line that is neither a comment
    /// (`%`) nor blank starts with `from to`, vertices counted from 1.
    pub fn from_tsv(s: &[u8]) -> (r: Result<Graph, GraphError>)
        ensures
            r is Ok <==> tsv_valid(s@),
            r matches Ok(g) ==> ({
                let n = tsv_order(s@).unwrap();
                &&& g.order() == n
                &&& forall|i: int, j: int| 0 <= i < n && 0 <= j < n ==> #[trigger] g.edge(i, j) == tsv_edge(s@, i, j)
            }),
    {
        let ls = split_into_lines(s);
        let ghost lv = lines(s@);
        if ls.len() < 2 {
            return Err(GraphError::MalformedInput);
        }
        assert(ls@[1]@ == lv[1]);
        let toks = split_into_tokens(&ls[1]);
        let mut ds: Vec<Vec<u8>> = Vec::new();
        let mut p: usize = 0;
        while p < toks.len()
            invariant
                p <= toks.len(),
                views(ds@) == without_percent(views(toks@).subrange(0, p as int)),
            decreases toks.len() - p,
        {
            let ghost tv = views(toks@).subrange(0, p + 1);
            assert(tv.drop_last() =~= views(toks@).subrange(0, p as int));
            assert(tv.last() == toks@[p as int]@);
            let t = &toks[p];
            if t.len() == 1 && t[0] == 37 {
                assert(t@ =~= seq![37u8]);
            } else {
                assert(!is_percent(t@)) by {
                    if is_percent(t@) {
                        assert(t@.len() == 1 && t@[0] == 37);
                    }
                }
                let ghost before = views(ds@);
                ds.push(copy_bytes(t));
                assert(views(ds@) =~= before.push(t@));
            }
            p = p + 1;
        }
        assert(views(toks@).subrange(0, p as int) =~= views(toks@));
        if ds.len() < 2 {
            return Err(GraphError::MalformedInput);
        }
        assert(views(ds@)[1] == ds@[1]@);
        let n = match parse_number(&ds[1]) {
            Some(v) => v,
            None => {
                return Err(GraphError::MalformedInput);
            },
        };
        if ds.len() >= 3 {
            assert(views(ds@)[2] == ds@[2]@);
            match parse_number(&ds[2]) {
                Some(m) => {
                    if m != n {
                        return Err(GraphError::MalformedInput);
                    }
                },
                None => {
                    return Err(GraphError::MalformedInput);
                },
            }
        }
        assert(tsv_order(s@) == Some(n as int));
        let mut adj: Matrix<u8> = Matrix::zeros(n, n);
        let mut q: usize = 2;
        while q < ls.len()
            invariant
                2 <= q <= ls.len(),
                views(ls@) == lv,
                lv == lines(s@),
                tsv_order(s@) == Some(n as int),
                n < 1_000_000_000,
                adj.wf(),
                adj.height() == n,
                adj.width() == n,
                lines_ok(lv, q as int, n as int),
                forall|i: int, j: int| 0 <= i < n && 0 <= j < n ==> (#[trigger] adj.entry(i, j) != 0u8) == edge_before(lv, q as int, i, j),
            decreases ls.len() - q,
        {
            let line = &ls[q];
            assert(line@ == lv[q as int]);
            if line.len() > 0 && line[0] == 37 {
                assert(!is_edge_line(line@));
            } else {
                let ts = split_into_tokens(line);
                assert(tokens(line@).len() == ts.len());
                if ts.len() == 0 {
                    assert(!is_edge_line(line@));
                } else {
                    assert(is_edge_line(line@));
                    if ts.len() < 2 {
                        proof {
                            if lines_ok(lv, lv.len() as int, n as int) {
                                lemma_lines_ok_prefix(lv, q as int + 1, lv.len() as int, n as int);
                                assert(line_ok(lv[q as int], n as int));
                            }
                        }
                        return Err(GraphError::MalformedInput);
                    }
                    assert(views(ts@)[0] == ts@[0]@);
                    assert(views(ts@)[1] == ts@[1]@);
                    let a = parse_number(&ts[0]);
                    let b = parse_number(&ts[1]);
                    match (a, b) {
                        (Some(a), Some(b)) => {
                            if a < 1 || a > n || b < 1 || b > n {
                                proof {
                                    if lines_ok(lv, lv.len() as int, n as int) {
                                        lemma_lines_ok_prefix(lv, q as int + 1, lv.len() as int, n as int);
                                    }
                                }
                                return Err(GraphError::MalformedInput);
                            }
                            let ghost before = adj;
                            adj.set(a - 1, b - 1, 1u8);
                            assert(line_edge(line@, a - 1, b - 1));
                            assert forall|i: int, j: int| 0 <= i < n && 0 <= j < n implies (#[trigger] adj.entry(i, j) != 0u8)
                                == edge_before(lv, q + 1, i, j) by {
                                if i != a - 1 || j != b - 1 {
                                    assert(before.entry(i, j) == adj.entry(i, j));
                                    assert(!line_edge(line@, i, j));
                                }
                            }
                        },
                        _ => {
                            proof {
                                if lines_ok(lv, lv.len() as int, n as int) {
                                    lemma_lines_ok_prefix(lv, q as int + 1, lv.len() as int, n as int);
                                }
                            }
                            return Err(GraphError::MalformedInput);
                        },
                    }
                }
            }
            assert(line_ok(lv[q as int], n as int));
            q = q + 1;
        }
        assert(views(ls@).len() == ls@.len());
        Ok(Graph { adj })
    }

    /// Number of vertices.
    pub fn num_vert(&self) -> (r: usize)
        ensures
            r == self.order(),
            r <= i64::MAX,
    {
        proof {
            use_type_invariant(self);
        }
        self.adj.ncols()
    }

    /// The heads of the edges leaving `i`, in ascending order.
    pub fn neighbors_of(&self, i: usize) -> (r: Vec<usize>)
        requires
            i < self.order(),
        ensures
            forall|a: int, b: int| 0 <= a < b < r.len() ==> r[a] < r[b],
            forall|j: usize| r@.contains(j) <==> (j < self.order() && self.edge(i as int, j as int)),
    {
        proof {
            use_type_invariant(self);
        }
        self.adj.neighbors_of(i)
    }

    /// The adjacency matrix.
    pub fn adjacency(&self) -> (r: &Matrix<u8>)
        ensures
            r.wf(),
            r.height() == self.order(),
            r.width() == self.order(),
            forall|i: int, j: int| #[trigger] self.edge(i, j) == (r.entry(i, j) != 0u8),
    {
        proof {
            use_type_invariant(self);
        }
        &self.adj
    }

    /// The walk sum `Σ_i (A'^{k-1} · c)_i`, where `A'` is the adjacency matrix
    /// with each edge `i → j` carrying `coding[i]`.
    pub fn compute_walk_sum(&self, k: usize, coding: Vec<ExTensor>) -> (r: ExTensor)
        requires
            k >= 1,
            coding.len() == self.order(),
        ensures
            r@ == walk_sum(*self, views(coding@), k as nat),
    {
        proof {
            use_type_invariant(self);
        }
        let ghost c = views(coding@);
        let n = self.adj.nrows();
        let a = self.adj.add_coding(&coding);
        let mut res: Vec<ExTensor> = Vec::new();
        let mut i: usize = 0;
        while i < n
            invariant
                i <= n,
                n == coding.len(),
                res.len() == i,
                forall|q: int| 0 <= q < i ==> (#[trigger] res@[q])@ == coding@[q]@,
            decreases n - i,
        {
            res.push(coding[i].duplicate());
            i = i + 1;
        }
        assert(views(res@) =~= walk(*self, c, 0));
        let mut step: usize = 1;
        while step < k
            invariant
                1 <= step <= k,
                a.wf(),
                a.height() == n,
                a.width() == n,
                n == self.order(),
                c == views(coding@),
                forall|x: int, j: int|
                    0 <= x < n && 0 <= j < n ==> #[trigger] a.entry(x, j) == coded_entry(*self, c, x, j),
                res.len() == n,
                views(res@) == walk(*self, c, (step - 1) as nat),
            decreases k - step,
        {
            let next = a.mul_vec(&res);
            proof {
                assert forall|x: int| 0 <= x < n implies #[trigger] a.dense_dot(views(res@), x, n as int)
                    == coded_dot(*self, c, views(res@), x, n as int) by {
                    lemma_coded_dot(*self, c, &a, views(res@), x, n as int);
                }
                assert(views(next@) =~= coded_step(*self, c, views(res@)));
            }
            res = next;
            step = step + 1;
        }
        let mut sum = ExTensor::zero();
        let mut p: usize = 0;
        while p < n
            invariant
                p <= n,
                res.len() == n,
                sum@ == total(views(res@), p as int),
            decreases n - p,
        {
            sum = sum.add(&res[p]);
            p = p + 1;
        }
        sum
    }
}

/// A matrix whose entries are those of the coded adjacency computes the coded
/// products.
pub proof fn lemma_coded_dot(
    g: Graph,
    c: Seq<Seq<(BitVec, i64)>>,
    a: &Matrix<ExTensor>,
    v: Seq<Seq<(BitVec, i64)>>,
    i: int,
    n: int,
)
    requires
        0 <= i,
        n <= a.width(),
        i < a.height(),
        forall|x: int, j: int| 0 <= x < a.height() && 0 <= j < a.width() ==> #[trigger] a.entry(x, j) == coded_entry(g, c, x, j),
    ensures
        a.dense_dot(v, i, n) == coded_dot(g, c, v, i, n),
    decreases n,
{
    if n > 0 {
        lemma_coded_dot(g, c, a, v, i, n - 1);
        assert(a.entry(i, n - 1) == coded_entry(g, c, i, n - 1));
    }
}

/// Well-formed body lines stay well formed on a shorter prefix.
proof fn lemma_lines_ok_prefix(ls: Seq<Seq<u8>>, q: int, r: int, n: int)
    requires
        q <= r,
        lines_ok(ls, r, n),
    ensures
        lines_ok(ls, q, n),
    decreases r - q,
{
    if q < r {
        lemma_lines_ok_prefix(ls, q, r - 1, n);
    }
}

/// A copy of a byte string.
fn copy_bytes(t: &Vec<u8>) -> (r: Vec<u8>)
    ensures
        r@ == t@,
{
    let mut res: Vec<u8> = Vec::new();
    let mut i: usize = 0;
    while i < t.len()
        invariant
            i <= t.len(),
            res@ == t@.subrange(0, i as int),
        decreases t.len() - i,
    {
        res.push(t[i]);
        i = i + 1;
        assert(res@ =~= t@.subrange(0, i as int));
    }
    assert(t@.subrange(0, i as int) =~= t@);
    res
}

/// Reads the order written at offset `o`.
fn read_order(s: &[u8], o: usize) -> (r: Option<(usize, usize)>)
    ensures
        r is Some <==> order_at(s@, o as int) is Some,
        r matches Some((n, next)) ==> order_at(s@, o as int) == Some((n as int, next as int)) && n <= 262143,
{
    if s.len() <= o || s[o] < 63 || s[o] > 126 {
        return None;
    }
    if s[o] < 126 {
        return Some(((s[o] - 63) as usize, o + 1));
    }
    if s.len() - o < 4 || s[o + 1] < 63 || s[o + 1] > 126 || s[o + 2] < 63 || s[o + 2] > 126 || s[o + 3] < 63 || s[o + 3]
        > 126 {
        return None;
    }
    let n = ((s[o + 1] - 63) as usize) * 4096 + ((s[o + 2] - 63) as usize) * 64 + ((s[o + 3] - 63) as usize);
    Some((n, o + 4))
}

impl Graph {
    /// The order of a graph in the sparse6 format: an optional `>>sparse6<<`
    /// header, then `:` and the order encoded as in graph6. The edges that
    /// follow are not read.
    pub fn sparse6_order(s: &[u8]) -> (r: Result<usize, GraphError>)
        ensures
            r is Ok <==> s6_order(s@) is Some,
            r matches Ok(n) ==> s6_order(s@) == Some(n as int),
    {
        let mut o: usize = 0;
        if s.len() >= 11 && s[0] == 62 && s[1] == 62 && s[2] == 115 && s[3] == 112 && s[4] == 97 && s[5] == 114 && s[6]
            == 115 && s[7] == 101 && s[8] == 54 && s[9] == 60 && s[10] == 60 {
            assert(s@.subrange(0, 11) =~= sparse6_header());
            o = 11;
        } else if s.len() >= 11 {
            assert(s@.subrange(0, 11) != sparse6_header()) by {
                if s@.subrange(0, 11) == sparse6_header() {
                    assert forall|q: int| 0 <= q < 11 implies s@[q] == sparse6_header()[q] by {
                        assert(s@.subrange(0, 11)[q] == s@[q]);
                    }
                }
            }
        }
        if s.len() <= o || s[o] != 58 {
            return Err(GraphError::MalformedInput);
        }
        match read_order(s, o + 1) {
            Some((n, _)) => Ok(n),
            None => Err(GraphError::MalformedInput),
        }
    }
}

} // verus!
