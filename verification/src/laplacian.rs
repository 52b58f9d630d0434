//! Identities of the graph Laplacian L = B Bᵀ = D - A: its rows sum to zero (so
//! constant sections are harmonic), its trace is twice the number of edges, and its
//! quadratic form is the sum of squared differences across the edges (so it is
//! positive semi-definite).

use crate::graph::Graph;
use vstd::prelude::*;

verus! {

/// `f(0) + f(1) + ... + f(n - 1)`.
pub open spec fn sum_upto(n: int, f: spec_fn(int) -> int) -> int
    decreases n,
{
    if n <= 0 {
        0
    } else {
        sum_upto(n - 1, f) + f(n - 1)
    }
}

/// Sums of functions that agree on the range are equal.
pub proof fn lemma_sum_congr(n: int, f: spec_fn(int) -> int, g: spec_fn(int) -> int)
    requires
        forall|i: int| 0 <= i < n ==> #[trigger] f(i) == g(i),
    ensures
        sum_upto(n, f) == sum_upto(n, g),
    decreases n,
{
    if n > 0 {
        lemma_sum_congr(n - 1, f, g);
    }
}

/// The sum of a pointwise sum is the sum of the sums.
pub proof fn lemma_sum_add(n: int, f: spec_fn(int) -> int, g: spec_fn(int) -> int, h: spec_fn(int) -> int)
    requires
        forall|i: int| 0 <= i < n ==> #[trigger] h(i) == f(i) + g(i),
    ensures
        sum_upto(n, h) == sum_upto(n, f) + sum_upto(n, g),
    decreases n,
{
    if n > 0 {
        lemma_sum_add(n - 1, f, g, h);
    }
}

/// A constant factor comes out of a sum.
pub proof fn lemma_sum_scale(n: int, c: int, f: spec_fn(int) -> int, h: spec_fn(int) -> int)
    requires
        forall|i: int| 0 <= i < n ==> #[trigger] h(i) == c * f(i),
    ensures
        sum_upto(n, h) == c * sum_upto(n, f),
    decreases n,
{
    if n > 0 {
        lemma_sum_scale(n - 1, c, f, h);
        let s = sum_upto(n - 1, f);
        let v = f(n - 1);
        assert(c * s + c * v == c * (s + v)) by (nonlinear_arith);
    }
}

/// The sum of a function that is `c` at `a` and 0 elsewhere.
pub proof fn lemma_sum_point(n: int, a: int, c: int, f: spec_fn(int) -> int)
    requires
        forall|i: int| 0 <= i < n ==> #[trigger] f(i) == if i == a {
            c
        } else {
            0
        },
    ensures
        sum_upto(n, f) == if 0 <= a < n {
            c
        } else {
            0
        },
    decreases n,
{
    if n > 0 {
        lemma_sum_point(n - 1, a, c, f);
    }
}

/// A sum of nonnegative terms is nonnegative.
pub proof fn lemma_sum_nonneg(n: int, f: spec_fn(int) -> int)
    requires
        forall|i: int| 0 <= i < n ==> #[trigger] f(i) >= 0,
    ensures
        sum_upto(n, f) >= 0,
    decreases n,
{
    if n > 0 {
        lemma_sum_nonneg(n - 1, f);
    }
}

/// Squared difference of `x` across edge `e`.
pub open spec fn edge_difference_sq(g: Graph, x: Seq<int>, e: int) -> int {
    let (a, b) = g.edges@[e];
    (x[a as int] - x[b as int]) * (x[a as int] - x[b as int])
}

/// The quadratic form xᵀ L x of the graph Laplacian.
pub open spec fn laplacian_form(g: Graph, x: Seq<int>) -> int {
    sum_upto(
        g.n as int,
        |i: int| sum_upto(g.n as int, |j: int| x[i] * g.laplacian_entry(i as usize, j as usize) * x[j]),
    )
}

impl Graph {
    /// The graph Laplacian is symmetric.
    pub proof fn lemma_laplacian_symmetric(&self, i: usize, j: usize)
        requires
            self.well_formed(),
        ensures
            self.laplacian_entry(i, j) == self.laplacian_entry(j, i),
    {
        if self.adjacent(i, j) {
            assert(self.adjacent(j, i));
        }
        if self.adjacent(j, i) {
            assert(self.adjacent(i, j));
        }
    }

    /// Column `e` of the incidence matrix is +1 at the tail, -1 at the head, 0 elsewhere:
    /// `sum_v c(v) B[v][e]` is `c(tail) - c(head)`.
    proof fn lemma_incidence_column_sum(&self, e: int, c: spec_fn(int) -> int, h: spec_fn(int) -> int)
        requires
            self.well_formed(),
            0 <= e < self.edges@.len(),
            forall|v: int| 0 <= v < self.n ==> #[trigger] h(v) == c(v) * self.incidence(v as usize, e),
        ensures
            sum_upto(self.n as int, h) == c(self.edges@[e].0 as int) - c(self.edges@[e].1 as int),
    {
        let (a, b) = self.edges@[e];
        assert(a < b && self.adjacent(a, b));
        let ta = |v: int| if v == a as int { c(a as int) } else { 0 };
        let tb = |v: int| if v == b as int { -c(b as int) } else { 0 };
        assert forall|v: int| 0 <= v < self.n implies #[trigger] h(v) == ta(v) + tb(v) by {
            if v == a {
            } else if v == b {
            } else {
                assert(self.incidence(v as usize, e) == 0);
            }
        }
        lemma_sum_add(self.n as int, ta, tb, h);
        lemma_sum_point(self.n as int, a as int, c(a as int), ta);
        lemma_sum_point(self.n as int, b as int, -c(b as int), tb);
    }

    proof fn lemma_row_sum_products(&self, i: usize, k: int)
        requires
            self.well_formed(),
            0 <= k <= self.edges@.len(),
        ensures
            sum_upto(self.n as int, |j: int| self.incidence_product(i, j as usize, k)) == 0,
        decreases k,
    {
        let n = self.n as int;
        if k == 0 {
            lemma_sum_point(n, -1, 0, |j: int| self.incidence_product(i, j as usize, k));
        } else {
            self.lemma_row_sum_products(i, k - 1);
            let ci = self.incidence(i, k - 1);
            let prev = |j: int| self.incidence_product(i, j as usize, k - 1);
            let col = |j: int| ci * self.incidence(j as usize, k - 1);
            let unit = |j: int| 1int;
            let col1 = |j: int| unit(j) * self.incidence(j as usize, k - 1);
            self.lemma_incidence_column_sum(k - 1, unit, col1);
            lemma_sum_scale(n, ci, col1, col);
            let s1 = sum_upto(n, col1);
            assert(ci * s1 == 0) by (nonlinear_arith)
                requires
                    s1 == 0,
            ;
            lemma_sum_add(n, prev, col, |j: int| self.incidence_product(i, j as usize, k));
        }
    }

    /// Every row of the graph Laplacian sums to zero: L·1 = 0, so constant sections
    /// are harmonic.
    pub proof fn lemma_laplacian_rows_sum_to_zero(&self, i: usize)
        requires
            self.well_formed(),
            i < self.n,
        ensures
            sum_upto(self.n as int, |j: int| self.laplacian_entry(i, j as usize)) == 0,
    {
        let m = self.edges@.len() as int;
        self.lemma_row_sum_products(i, m);
        assert forall|j: int| 0 <= j < self.n implies #[trigger] self.incidence_product(
            i,
            j as usize,
            m,
        ) == self.laplacian_entry(i, j as usize) by {
            self.lemma_laplacian_entry(i, j as usize);
        }
        lemma_sum_congr(
            self.n as int,
            |j: int| self.incidence_product(i, j as usize, m),
            |j: int| self.laplacian_entry(i, j as usize),
        );
    }

    proof fn lemma_trace_products(&self, k: int)
        requires
            self.well_formed(),
            0 <= k <= self.edges@.len(),
        ensures
            sum_upto(self.n as int, |v: int| self.incidence_product(v as usize, v as usize, k)) == 2
                * k,
        decreases k,
    {
        let n = self.n as int;
        if k == 0 {
            lemma_sum_point(
                n,
                -1,
                0,
                |v: int| self.incidence_product(v as usize, v as usize, k),
            );
        } else {
            self.lemma_trace_products(k - 1);
            let prev = |v: int| self.incidence_product(v as usize, v as usize, k - 1);
            let sq = |v: int| self.incidence(v as usize, k - 1) * self.incidence(v as usize, k - 1);
            let inc = |v: int| self.incidence(v as usize, k - 1);
            self.lemma_incidence_column_sum(k - 1, inc, sq);
            let (a, b) = self.edges@[k - 1];
            assert(a < b);
            assert(inc(a as int) == 1);
            assert(inc(b as int) == -1);
            lemma_sum_add(n, prev, sq, |v: int| self.incidence_product(v as usize, v as usize, k));
        }
    }

    /// The trace of the graph Laplacian (the sum of the degrees) is twice the number of
    /// edges.
    pub proof fn lemma_laplacian_trace(&self)
        requires
            self.well_formed(),
        ensures
            sum_upto(self.n as int, |v: int| self.laplacian_entry(v as usize, v as usize)) == 2
                * self.edges@.len(),
    {
        let m = self.edges@.len() as int;
        self.lemma_trace_products(m);
        assert forall|v: int| 0 <= v < self.n implies #[trigger] self.incidence_product(
            v as usize,
            v as usize,
            m,
        ) == self.laplacian_entry(v as usize, v as usize) by {
            self.lemma_laplacian_entry(v as usize, v as usize);
        }
        lemma_sum_congr(
            self.n as int,
            |v: int| self.incidence_product(v as usize, v as usize, m),
            |v: int| self.laplacian_entry(v as usize, v as usize),
        );
    }

    /// Row `i` of the quadratic form over the first `k` edges.
    spec fn form_row(&self, x: Seq<int>, k: int, i: int) -> int {
        sum_upto(
            self.n as int,
            |j: int| x[i] * self.incidence_product(i as usize, j as usize, k) * x[j],
        )
    }

    proof fn lemma_form_products(&self, x: Seq<int>, k: int)
        requires
            self.well_formed(),
            x.len() == self.n,
            0 <= k <= self.edges@.len(),
        ensures
            sum_upto(self.n as int, |i: int| self.form_row(x, k, i)) == sum_upto(
                k,
                |e: int| edge_difference_sq(*self, x, e),
            ),
        decreases k,
    {
        let n = self.n as int;
        if k == 0 {
            assert forall|i: int| 0 <= i < n implies #[trigger] self.form_row(x, k, i) == 0 by {
                assert forall|j: int| 0 <= j < n implies #[trigger] (x[i] * self.incidence_product(
                    i as usize,
                    j as usize,
                    k,
                ) * x[j]) == 0 by {
                    let p = self.incidence_product(i as usize, j as usize, k);
                    assert(x[i] * p * x[j] == 0) by (nonlinear_arith)
                        requires
                            p == 0,
                    ;
                }
                lemma_sum_point(
                    n,
                    -1,
                    0,
                    |j: int| x[i] * self.incidence_product(i as usize, j as usize, k) * x[j],
                );
            }
            lemma_sum_point(n, -1, 0, |i: int| self.form_row(x, k, i));
        } else {
            self.lemma_form_products(x, k - 1);
            let e = k - 1;
            let (a, b) = self.edges@[e];
            let xv = |v: int| x[v];
            let xinc = |v: int| x[v] * self.incidence(v as usize, e);
            self.lemma_incidence_column_sum(e, xv, xinc);
            let s = x[a as int] - x[b as int];
            assert forall|i: int| 0 <= i < n implies #[trigger] self.form_row(x, k, i)
                == self.form_row(x, k - 1, i) + xinc(i) * s by {
                let prev = |j: int| x[i] * self.incidence_product(i as usize, j as usize, k - 1) * x[j];
                let cur = |j: int| x[i] * self.incidence_product(i as usize, j as usize, k) * x[j];
                let extra = |j: int| xinc(i) * xinc(j);
                assert forall|j: int| 0 <= j < n implies #[trigger] cur(j) == prev(j) + extra(j) by {
                    let p = self.incidence_product(i as usize, j as usize, k - 1);
                    let ci = self.incidence(i as usize, e);
                    let cj = self.incidence(j as usize, e);
                    assert(x[i] * (p + ci * cj) * x[j] == x[i] * p * x[j] + (x[i] * ci) * (x[j] * cj))
                        by (nonlinear_arith);
                }
                lemma_sum_add(n, prev, extra, cur);
                lemma_sum_scale(n, xinc(i), xinc, extra);
            }
            let prev_row = |i: int| self.form_row(x, k - 1, i);
            let extra_row = |i: int| xinc(i) * s;
            let s_xinc = |i: int| s * xinc(i);
            assert forall|i: int| 0 <= i < n implies #[trigger] s_xinc(i) == extra_row(i) by {
                assert(s * xinc(i) == xinc(i) * s) by (nonlinear_arith);
            }
            lemma_sum_scale(n, s, xinc, s_xinc);
            lemma_sum_congr(n, s_xinc, extra_row);
            lemma_sum_add(n, prev_row, extra_row, |i: int| self.form_row(x, k, i));
        }
    }

    /// The quadratic form of the graph Laplacian is the sum over the edges (u, v) of
    /// (x_u - x_v)²; in particular it is never negative (L is positive semi-definite).
    pub proof fn lemma_laplacian_form(&self, x: Seq<int>)
        requires
            self.well_formed(),
            x.len() == self.n,
        ensures
            laplacian_form(*self, x) == sum_upto(
                self.edges@.len() as int,
                |e: int| edge_difference_sq(*self, x, e),
            ),
            laplacian_form(*self, x) >= 0,
    {
        let n = self.n as int;
        let m = self.edges@.len() as int;
        self.lemma_form_products(x, m);
        let outer = |i: int| sum_upto(n, |j: int| x[i] * self.laplacian_entry(i as usize, j as usize) * x[j]);
        assert forall|i: int| 0 <= i < n implies #[trigger] self.form_row(x, m, i) == outer(i) by {
            assert forall|j: int| 0 <= j < n implies #[trigger] self.incidence_product(
                i as usize,
                j as usize,
                m,
            ) == self.laplacian_entry(i as usize, j as usize) by {
                self.lemma_laplacian_entry(i as usize, j as usize);
            }
            lemma_sum_congr(
                n,
                |j: int| x[i] * self.incidence_product(i as usize, j as usize, m) * x[j],
                |j: int| x[i] * self.laplacian_entry(i as usize, j as usize) * x[j],
            );
        }
        lemma_sum_congr(n, |i: int| self.form_row(x, m, i), outer);
        assert forall|e: int| 0 <= e < m implies #[trigger] edge_difference_sq(*self, x, e) >= 0 by {
            let (a, b) = self.edges@[e];
            let t = x[a as int] - x[b as int];
            assert(t * t >= 0) by (nonlinear_arith);
        }
        lemma_sum_nonneg(m, |e: int| edge_difference_sq(*self, x, e));
    }
}

} // verus!
