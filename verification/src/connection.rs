//! Block layout of the connection Laplacian of a vector bundle with fibers R^d
//! over a graph: block (v, v) is deg(v)·I, and each edge (u, v) contributes the
//! blocks (u, v) and (v, u) holding its transition maps.

use crate::graph::Graph;
use vstd::prelude::*;

verus! {

/// Layout of the connection Laplacian: the matrix is `size × size`, the fiber of
/// vertex v occupies rows and columns `offsets[v] .. offsets[v] + d`, and its
/// diagonal block is `degrees[v] · I`.
#[derive(Debug)]
pub struct ConnectionLayout {
    pub size: usize,
    pub offsets: Vec<usize>,
    pub degrees: Vec<usize>,
}

/// Layout of the connection Laplacian of a graph with fibers of dimension `d`.
pub fn connection_layout(graph: &Graph, d: usize) -> (lay: ConnectionLayout)
    requires
        graph.well_formed(),
        graph.n * d <= usize::MAX,
    ensures
        lay.size == graph.n * d,
        lay.offsets@.len() == graph.n,
        lay.degrees@.len() == graph.n,
        forall|v: int|
            0 <= v < graph.n ==> {
                &&& #[trigger] lay.offsets@[v] == v * d
                &&& lay.offsets@[v] + d <= lay.size
                &&& lay.degrees@[v] == graph.adj@[v]@.len()
            },
{
    let n = graph.n;
    let mut offsets: Vec<usize> = Vec::new();
    let mut degrees: Vec<usize> = Vec::new();
    let mut v: usize = 0;
    while v < n
        invariant
            graph.well_formed(),
            n == graph.n,
            n * d <= usize::MAX,
            v <= n,
            offsets@.len() == v,
            degrees@.len() == v,
            forall|w: int|
                0 <= w < v ==> {
                    &&& #[trigger] offsets@[w] == w * d
                    &&& offsets@[w] + d <= n * d
                    &&& degrees@[w] == graph.adj@[w]@.len()
                },
        decreases n - v,
    {
        proof {
            assert((v + 1) * d <= n * d) by (nonlinear_arith)
                requires
                    v + 1 <= n,
            ;
            assert((v + 1) * d == v * d + d) by (nonlinear_arith);
        }
        offsets.push(v * d);
        degrees.push(graph.degree(v));
        v += 1;
    }
    ConnectionLayout { size: n * d, offsets, degrees }
}

} // verus!
