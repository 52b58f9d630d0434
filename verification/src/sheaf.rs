//! Stalk layout of a cellular sheaf on a graph: the dimensions of the vector
//! spaces on vertices and edges, and where each restriction map sits in the
//! coboundary operator D.

use crate::graph::Graph;
use vstd::prelude::*;

verus! {

/// Sum of a sequence of stalk dimensions.
pub open spec fn stalk_sum(s: Seq<usize>) -> nat
    decreases s.len(),
{
    if s.len() == 0 {
        0
    } else {
        stalk_sum(s.drop_last()) + s.last() as nat
    }
}

/// Sum of the first `k` stalk dimensions: the offset at which stalk `k` starts.
pub open spec fn stalk_offset(s: Seq<usize>, k: int) -> nat {
    stalk_sum(s.take(k))
}

/// Each stalk starts where the previous one ends.
pub proof fn lemma_stalk_offset_step(s: Seq<usize>, k: int)
    requires
        0 <= k < s.len(),
    ensures
        stalk_offset(s, k + 1) == stalk_offset(s, k) + s[k],
{
    assert(s.take(k + 1).drop_last() =~= s.take(k));
}

/// Offsets grow with the index and never exceed the total.
pub proof fn lemma_stalk_offset_bound(s: Seq<usize>, k: int, j: int)
    requires
        0 <= k <= j <= s.len(),
    ensures
        stalk_offset(s, k) <= stalk_offset(s, j),
        stalk_offset(s, j) <= stalk_sum(s),
{
    lemma_stalk_offset_mono(s, k, j);
    lemma_stalk_offset_mono(s, j, s.len() as int);
    assert(s.take(s.len() as int) =~= s);
}

proof fn lemma_stalk_offset_mono(s: Seq<usize>, k: int, j: int)
    requires
        0 <= k <= j <= s.len(),
    ensures
        stalk_offset(s, k) <= stalk_offset(s, j),
    decreases j - k,
{
    if k < j {
        lemma_stalk_offset_step(s, j - 1);
        lemma_stalk_offset_mono(s, k, j - 1);
    }
}

/// `k` stalks, all of dimension `d`.
pub open spec fn uniform_dims(k: nat, d: usize) -> Seq<usize> {
    Seq::new(k, |_i: int| d)
}

/// `k` stalks of dimension `d` add up to `k * d`.
pub proof fn lemma_stalk_sum_constant(k: nat, d: usize)
    ensures
        stalk_sum(uniform_dims(k, d)) == k * d,
    decreases k,
{
    if k > 0 {
        let c = uniform_dims(k, d);
        assert(c.drop_last() =~= uniform_dims((k - 1) as nat, d));
        lemma_stalk_sum_constant((k - 1) as nat, d);
        assert(stalk_sum(c) == stalk_sum(c.drop_last()) + c.last() as nat);
        assert(c.last() == d);
        let k1 = (k - 1) as nat;
        assert(stalk_sum(c.drop_last()) == k1 * d);
        assert(k * d == k1 * d + d) by (nonlinear_arith)
            requires
                k1 == k - 1,
        ;
    } else {
        assert(uniform_dims(k, d).len() == 0);
    }
}

/// With stalks of uniform dimension `d`, stalk `j` starts at `j * d`.
pub proof fn lemma_stalk_offset_uniform(k: nat, d: usize, j: int)
    requires
        0 <= j <= k,
    ensures
        stalk_offset(uniform_dims(k, d), j) == j * d,
    decreases j,
{
    if j > 0 {
        lemma_stalk_offset_uniform(k, d, j - 1);
        lemma_stalk_offset_step(uniform_dims(k, d), j - 1);
        assert(uniform_dims(k, d)[j - 1] == d);
        assert(j * d == (j - 1) * d + d) by (nonlinear_arith);
    } else {
        assert(uniform_dims(k, d).take(0) =~= Seq::<usize>::empty());
        assert(j * d == 0) by (nonlinear_arith)
            requires
                j == 0,
        ;
    }
}

/// Where the two restriction maps of one edge sit in the coboundary matrix D:
/// rows `row .. row + rows` hold `-F_{tail→e}` in columns `tail_col .. tail_col + tail_cols`
/// and `F_{head→e}` in columns `head_col .. head_col + head_cols`.
#[derive(Debug)]
pub struct CoboundaryBlock {
    pub row: usize,
    pub rows: usize,
    pub tail_col: usize,
    pub tail_cols: usize,
    pub head_col: usize,
    pub head_cols: usize,
}

/// The stalk dimensions of a sheaf on a graph: vertex v gets R^{d_v},
/// edge e gets R^{d_e}.
#[derive(Clone, Debug)]
pub struct Sheaf {
    /// Dimension of the stalk at each vertex.
    pub vertex_dims: Vec<usize>,
    /// Dimension of the stalk at each edge.
    pub edge_dims: Vec<usize>,
}

impl Sheaf {
    /// The layout of the constant sheaf of dimension `d`: every vertex and every edge
    /// gets R^d (its restriction maps are the identity).
    pub fn constant(graph: &Graph, d: usize) -> (s: Self)
        ensures
            s.vertex_dims@ == uniform_dims(graph.n as nat, d),
            s.edge_dims@ == uniform_dims(graph.edges@.len(), d),
            stalk_sum(s.vertex_dims@) == graph.n * d,
            stalk_sum(s.edge_dims@) == graph.edges@.len() * d,
            forall|v: int| 0 <= v <= graph.n ==> #[trigger] stalk_offset(s.vertex_dims@, v) == v * d,
            forall|e: int|
                0 <= e <= graph.edges@.len() ==> #[trigger] stalk_offset(s.edge_dims@, e) == e * d,
    {
        let n = graph.n;
        let m = graph.num_edges();
        let mut vertex_dims: Vec<usize> = Vec::new();
        let mut i: usize = 0;
        while i < n
            invariant
                i <= n,
                vertex_dims@ == uniform_dims(i as nat, d),
            decreases n - i,
        {
            vertex_dims.push(d);
            i += 1;
            assert(vertex_dims@ =~= uniform_dims(i as nat, d));
        }
        let mut edge_dims: Vec<usize> = Vec::new();
        let mut j: usize = 0;
        while j < m
            invariant
                j <= m,
                edge_dims@ == uniform_dims(j as nat, d),
            decreases m - j,
        {
            edge_dims.push(d);
            j += 1;
            assert(edge_dims@ =~= uniform_dims(j as nat, d));
        }
        proof {
            lemma_stalk_sum_constant(n as nat, d);
            lemma_stalk_sum_constant(m as nat, d);
            assert forall|v: int| 0 <= v <= n implies #[trigger] stalk_offset(vertex_dims@, v) == v * d by {
                lemma_stalk_offset_uniform(n as nat, d, v);
            }
            assert forall|e: int| 0 <= e <= m implies #[trigger] stalk_offset(edge_dims@, e) == e * d by {
                lemma_stalk_offset_uniform(m as nat, d, e);
            }
        }
        Sheaf { vertex_dims, edge_dims }
    }

    /// Total dimension of the vertex space (sum of all vertex stalk dims).
    pub fn total_vertex_dim(&self) -> (t: usize)
        requires
            stalk_sum(self.vertex_dims@) <= usize::MAX,
        ensures
            t == stalk_sum(self.vertex_dims@),
    {
        sum_dims(&self.vertex_dims)
    }

    /// Total dimension of the edge space (sum of all edge stalk dims).
    pub fn total_edge_dim(&self) -> (t: usize)
        requires
            stalk_sum(self.edge_dims@) <= usize::MAX,
        ensures
            t == stalk_sum(self.edge_dims@),
    {
        sum_dims(&self.edge_dims)
    }

    /// Offset of each vertex stalk in the flattened vertex space C⁰:
    /// vertex v occupies indices `offsets[v] .. offsets[v] + d_v`.
    pub fn vertex_offsets(&self) -> (offsets: Vec<usize>)
        requires
            stalk_sum(self.vertex_dims@) <= usize::MAX,
        ensures
            offsets@.len() == self.vertex_dims@.len(),
            forall|v: int|
                0 <= v < offsets@.len() ==> #[trigger] offsets@[v] == stalk_offset(
                    self.vertex_dims@,
                    v,
                ),
    {
        let dims = &self.vertex_dims;
        let mut offsets: Vec<usize> = Vec::new();
        let mut acc: usize = 0;
        let mut i: usize = 0;
        while i < dims.len()
            invariant
                i <= dims@.len(),
                stalk_sum(dims@) <= usize::MAX,
                acc == stalk_offset(dims@, i as int),
                offsets@.len() == i,
                forall|v: int| 0 <= v < i ==> #[trigger] offsets@[v] == stalk_offset(dims@, v),
            decreases dims@.len() - i,
        {
            offsets.push(acc);
            proof {
                lemma_stalk_offset_step(dims@, i as int);
                lemma_stalk_offset_bound(dims@, i as int + 1, i as int + 1);
            }
            acc = acc + dims[i];
            i += 1;
        }
        offsets
    }

    /// Layout of the coboundary operator D (total_edge_dim × total_vertex_dim).
    /// For edge e = (u, v): the block row of e holds -F_{u→e} in the columns of u
    /// and F_{v→e} in the columns of v.
    pub fn coboundary_blocks(&self, graph: &Graph) -> (blocks: Vec<CoboundaryBlock>)
        requires
            self.edge_dims@.len() >= graph.edges@.len(),
            forall|e: int|
                0 <= e < graph.edges@.len() ==> (#[trigger] graph.edges@[e]).0
                    < self.vertex_dims@.len() && graph.edges@[e].1 < self.vertex_dims@.len(),
            stalk_sum(self.vertex_dims@) <= usize::MAX,
            stalk_sum(self.edge_dims@) <= usize::MAX,
        ensures
            blocks@.len() == graph.edges@.len(),
            forall|e: int|
                0 <= e < blocks@.len() ==> {
                    let b = #[trigger] blocks@[e];
                    let (u, v) = graph.edges@[e];
                    &&& b.row == stalk_offset(self.edge_dims@, e)
                    &&& b.rows == self.edge_dims@[e]
                    &&& b.tail_col == stalk_offset(self.vertex_dims@, u as int)
                    &&& b.tail_cols == self.vertex_dims@[u as int]
                    &&& b.head_col == stalk_offset(self.vertex_dims@, v as int)
                    &&& b.head_cols == self.vertex_dims@[v as int]
                    &&& b.row + b.rows <= stalk_sum(self.edge_dims@)
                    &&& b.tail_col + b.tail_cols <= stalk_sum(self.vertex_dims@)
                    &&& b.head_col + b.head_cols <= stalk_sum(self.vertex_dims@)
                },
    {
        let v_offsets = self.vertex_offsets();
        let m = graph.edges.len();
        let mut blocks: Vec<CoboundaryBlock> = Vec::new();
        let mut e_row: usize = 0;
        let mut ei: usize = 0;
        while ei < m
            invariant
                m == graph.edges@.len(),
                ei <= m,
                self.edge_dims@.len() >= m,
                forall|e: int|
                    0 <= e < graph.edges@.len() ==> (#[trigger] graph.edges@[e]).0
                        < self.vertex_dims@.len() && graph.edges@[e].1 < self.vertex_dims@.len(),
                stalk_sum(self.vertex_dims@) <= usize::MAX,
                stalk_sum(self.edge_dims@) <= usize::MAX,
                v_offsets@.len() == self.vertex_dims@.len(),
                forall|v: int|
                    0 <= v < v_offsets@.len() ==> #[trigger] v_offsets@[v] == stalk_offset(
                        self.vertex_dims@,
                        v,
                    ),
                e_row == stalk_offset(self.edge_dims@, ei as int),
                blocks@.len() == ei,
                forall|e: int|
                    0 <= e < ei ==> {
                        let b = #[trigger] blocks@[e];
                        let (u, v) = graph.edges@[e];
                        &&& b.row == stalk_offset(self.edge_dims@, e)
                        &&& b.rows == self.edge_dims@[e]
                        &&& b.tail_col == stalk_offset(self.vertex_dims@, u as int)
                        &&& b.tail_cols == self.vertex_dims@[u as int]
                        &&& b.head_col == stalk_offset(self.vertex_dims@, v as int)
                        &&& b.head_cols == self.vertex_dims@[v as int]
                        &&& b.row + b.rows <= stalk_sum(self.edge_dims@)
                        &&& b.tail_col + b.tail_cols <= stalk_sum(self.vertex_dims@)
                        &&& b.head_col + b.head_cols <= stalk_sum(self.vertex_dims@)
                    },
            decreases m - ei,
        {
            let (u, v) = graph.edges[ei];
            let de = self.edge_dims[ei];
            proof {
                assert(graph.edges@[ei as int].0 < self.vertex_dims@.len());
                lemma_stalk_offset_step(self.edge_dims@, ei as int);
                lemma_stalk_offset_bound(self.edge_dims@, ei as int + 1, ei as int + 1);
                lemma_stalk_offset_step(self.vertex_dims@, u as int);
                lemma_stalk_offset_bound(self.vertex_dims@, u as int + 1, u as int + 1);
                lemma_stalk_offset_step(self.vertex_dims@, v as int);
                lemma_stalk_offset_bound(self.vertex_dims@, v as int + 1, v as int + 1);
            }
            let block = CoboundaryBlock {
                row: e_row,
                rows: de,
                tail_col: v_offsets[u],
                tail_cols: self.vertex_dims[u],
                head_col: v_offsets[v],
                head_cols: self.vertex_dims[v],
            };
            blocks.push(block);
            e_row = e_row + de;
            ei += 1;
        }
        blocks
    }
}

/// Sum of the stalk dimensions in `dims`.
fn sum_dims(dims: &Vec<usize>) -> (t: usize)
    requires
        stalk_sum(dims@) <= usize::MAX,
    ensures
        t == stalk_sum(dims@),
{
    let mut acc: usize = 0;
    let mut i: usize = 0;
    while i < dims.len()
        invariant
            i <= dims@.len(),
            stalk_sum(dims@) <= usize::MAX,
            acc == stalk_offset(dims@, i as int),
        decreases dims@.len() - i,
    {
        proof {
            lemma_stalk_offset_step(dims@, i as int);
            lemma_stalk_offset_bound(dims@, i as int + 1, i as int + 1);
        }
        acc = acc + dims[i];
        i += 1;
    }
    proof {
        assert(dims@.take(dims@.len() as int) =~= dims@);
    }
    acc
}

} // verus!
