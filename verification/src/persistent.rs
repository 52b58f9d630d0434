//! Persistent H⁰ of a sheaf over an edge filtration of its graph: the bookkeeping
//! that turns merges of connected components (or drops of the kernel dimension of
//! the sheaf Laplacian) into deaths of bars in the barcode.

use crate::graph::{lemma_vertex_range_len, vertex_range, Graph};
use crate::sheaf::{stalk_sum, Sheaf};
use crate::walk::{
    lemma_linked_empty, lemma_linked_mono, lemma_linked_push, lemma_linked_push_mono,
    lemma_linked_pushed_edge, lemma_linked_refl, lemma_linked_symm, lemma_linked_trans, linked,
};
use vstd::prelude::*;

verus! {

/// `order` lists every edge index `0..m` exactly once.
pub open spec fn is_edge_order(m: nat, order: Seq<usize>) -> bool {
    &&& order.len() == m
    &&& forall|i: int| 0 <= i < m ==> #[trigger] order[i] < m
    &&& order.no_duplicates()
}

/// The edges added by the first `k` steps of the filtration.
pub open spec fn filtration(g: Graph, order: Seq<usize>, k: int) -> Seq<(usize, usize)> {
    order.take(k).map_values(|ei: usize| g.edges@[ei as int])
}

/// Step `k` of the filtration joins two components that were separate before it.
pub open spec fn merges_at(g: Graph, order: Seq<usize>, k: int) -> bool {
    let e = g.edges@[order[k] as int];
    !linked(filtration(g, order, k), e.0, e.1)
}

/// Number of merging steps among the first `k` steps of the filtration.
pub open spec fn merges_before(g: Graph, order: Seq<usize>, k: int) -> nat
    decreases k,
{
    if k <= 0 {
        0
    } else {
        merges_before(g, order, k - 1) + if merges_at(g, order, k - 1) {
            1nat
        } else {
            0nat
        }
    }
}

/// After the first `k` steps, `death` is the fate of H⁰ bar `b` when every merge kills
/// the next `d` living bars: `Some(j)` when it died at step `j`, `None` while it lives.
pub open spec fn h0_death_after(
    g: Graph,
    order: Seq<usize>,
    d: nat,
    k: int,
    b: int,
    death: Option<usize>,
) -> bool {
    match death {
        Some(j) => j < k && merges_at(g, order, j as int) && merges_before(g, order, j as int) * d
            <= b < merges_before(g, order, j as int) * d + d,
        None => merges_before(g, order, k) * d <= b,
    }
}

proof fn lemma_merges_mono(g: Graph, order: Seq<usize>, a: int, b: int)
    requires
        0 <= a <= b,
    ensures
        merges_before(g, order, a) <= merges_before(g, order, b),
    decreases b - a,
{
    if a < b {
        lemma_merges_mono(g, order, a, b - 1);
    }
}

/// Bars that died before step `k` all lie below `merges_before(k) * d`.
proof fn lemma_dead_below(g: Graph, order: Seq<usize>, d: nat, k: int, b: int, death: Option<usize>)
    requires
        0 <= k,
        h0_death_after(g, order, d, k, b, death),
    ensures
        death is Some <==> b < merges_before(g, order, k) * d,
{
    if let Some(j) = death {
        lemma_merges_mono(g, order, j as int + 1, k);
        let mj = merges_before(g, order, j as int);
        let mk = merges_before(g, order, k);
        assert(mj + 1 <= mk);
        assert((mj + 1) * d <= mk * d) by (nonlinear_arith)
            requires
                mj + 1 <= mk,
        ;
        assert((mj + 1) * d == mj * d + d) by (nonlinear_arith);
    }
}

/// Kernel dimension before step `k` of the filtration (all of C⁰ before the first edge).
pub open spec fn kernel_dim_before(total: nat, kernel_dims: Seq<usize>, k: int) -> nat {
    if k <= 0 {
        total
    } else {
        kernel_dims[k - 1] as nat
    }
}

/// After the first `k` steps, the fate of bar `b` when, at each step `j`, the kernel
/// dimension drops from `kernel_dim_before(j)` to `kernel_dims[j]` and that many of the
/// first living bars die.
pub open spec fn exact_death_after(
    total: nat,
    kernel_dims: Seq<usize>,
    k: int,
    b: int,
    death: Option<usize>,
) -> bool {
    match death {
        Some(j) => j < k && total - kernel_dim_before(total, kernel_dims, j as int) <= b < total
            - kernel_dims[j as int],
        None => total - kernel_dim_before(total, kernel_dims, k) <= b,
    }
}

/// The exact (kernel-dimension) bookkeeping and the union-find bookkeeping give the same
/// bars when every vertex stalk has dimension `d` and the kernel dimension after each
/// step is `d` times the number of components (as for the constant sheaf).
pub proof fn lemma_exact_matches_union_find(
    g: Graph,
    order: Seq<usize>,
    d: nat,
    kernel_dims: Seq<usize>,
    b: int,
    death: Option<usize>,
)
    requires
        kernel_dims.len() == order.len(),
        forall|k: int|
            0 <= k < kernel_dims.len() ==> #[trigger] kernel_dims[k] == d * (g.n - merges_before(
                g,
                order,
                k + 1,
            )),
    ensures
        exact_death_after(g.n as nat * d, kernel_dims, kernel_dims.len() as int, b, death)
            <==> h0_death_after(g, order, d, order.len() as int, b, death),
{
    let n = g.n as int;
    let m = order.len() as int;
    assert forall|k: int| 0 <= k <= m implies #[trigger] kernel_dim_before(
        g.n as nat * d,
        kernel_dims,
        k,
    ) == n * d - merges_before(g, order, k) * d by {
        if k == 0 {
            assert(merges_before(g, order, 0) * d == 0) by (nonlinear_arith)
                requires
                    merges_before(g, order, 0) == 0,
            ;
        } else {
            assert(kernel_dims[k - 1] == d * (n - merges_before(g, order, k)));
            let mk = merges_before(g, order, k) as int;
            assert(d * (n - mk) == n * d - mk * d) by (nonlinear_arith);
        }
    }
    if let Some(j) = death {
        if j < m {
            let mj = merges_before(g, order, j as int) as int;
            let mj1 = merges_before(g, order, j as int + 1) as int;
            assert(kernel_dim_before(g.n as nat * d, kernel_dims, j as int) == n * d - mj * d);
            assert(kernel_dim_before(g.n as nat * d, kernel_dims, j as int + 1) == n * d - mj1 * d);
            assert(kernel_dims[j as int] == kernel_dim_before(g.n as nat * d, kernel_dims, j as int + 1));
            if merges_at(g, order, j as int) {
                assert(mj1 == mj + 1);
                assert(mj1 * d == mj * d + d) by (nonlinear_arith)
                    requires
                        mj1 == mj + 1,
                ;
            } else {
                assert(mj1 == mj);
            }
        }
    } else {
        assert(kernel_dim_before(g.n as nat * d, kernel_dims, m) == n * d - merges_before(g, order, m) * d);
    }
}

/// Union-find forest over `0..n` with ghost representatives `roots` and a ghost
/// height `dist` that strictly decreases towards the root.
spec fn uf_inv(parent: Seq<usize>, roots: Seq<usize>, dist: Seq<nat>) -> bool {
    let n = parent.len();
    &&& roots.len() == n
    &&& dist.len() == n
    &&& forall|x: int|
        #![trigger parent[x]]
        0 <= x < n ==> {
            &&& parent[x] < n
            &&& roots[x] < n
            &&& roots[roots[x] as int] == roots[x]
            &&& parent[roots[x] as int] == roots[x]
            &&& roots[parent[x] as int] == roots[x]
            &&& (parent[x] != x ==> dist[parent[x] as int] < dist[x])
            &&& (parent[x] == x ==> roots[x] == x)
        }
}

/// Representative of `x`, compressing the path from `x` to it.
fn find(parent: &mut Vec<usize>, x: usize, Ghost(roots): Ghost<Seq<usize>>, Ghost(dist): Ghost<Seq<nat>>) -> (r: usize)
    requires
        uf_inv(old(parent)@, roots, dist),
        x < old(parent)@.len(),
    ensures
        uf_inv(final(parent)@, roots, dist),
        final(parent)@.len() == old(parent)@.len(),
        r == roots[x as int],
        dist[r as int] <= dist[x as int],
    decreases dist[x as int],
{
    let p = parent[x];
    if p != x {
        proof {
            assert(dist[p as int] < dist[x as int]);
            assert(parent@[p as int] < parent@.len());
        }
        let r = find(parent, p, Ghost(roots), Ghost(dist));
        proof {
            assert(parent@[x as int] < parent@.len());
            assert(parent@[r as int] == r);
        }
        let ghost before = parent@;
        parent.set(x, r);
        proof {
            assert forall|y: int| 0 <= y < parent@.len() implies {
                &&& #[trigger] parent@[y] < parent@.len()
                &&& roots[y] < parent@.len()
                &&& roots[roots[y] as int] == roots[y]
                &&& parent@[roots[y] as int] == roots[y]
                &&& roots[parent@[y] as int] == roots[y]
                &&& (parent@[y] != y ==> dist[parent@[y] as int] < dist[y])
                &&& (parent@[y] == y ==> roots[y] == y)
            } by {
                assert(before[y] < before.len());
                if y != x {
                    assert(parent@[y] == before[y]);
                }
                assert(before[roots[y] as int] < before.len());
            }
        }
        r
    } else {
        proof {
            assert(parent@[x as int] < parent@.len());
        }
        x
    }
}

/// Relabel the component of root `ru` with root `rv`.
spec fn merged_roots(roots: Seq<usize>, ru: usize, rv: usize) -> Seq<usize> {
    Seq::new(roots.len(), |y: int| if roots[y] == ru { rv } else { roots[y] })
}

/// Lift the heights of the component of `ru` above `rv`.
spec fn merged_dist(roots: Seq<usize>, dist: Seq<nat>, ru: usize, rv: usize) -> Seq<nat> {
    Seq::new(
        dist.len(),
        |y: int|
            if roots[y] == ru {
                dist[y] + dist[rv as int] + 1
            } else {
                dist[y]
            },
    )
}

proof fn lemma_union_inv(parent: Seq<usize>, roots: Seq<usize>, dist: Seq<nat>, ru: usize, rv: usize)
    requires
        uf_inv(parent, roots, dist),
        ru < parent.len(),
        rv < parent.len(),
        ru != rv,
        roots[ru as int] == ru,
        roots[rv as int] == rv,
    ensures
        uf_inv(parent.update(ru as int, rv), merged_roots(roots, ru, rv), merged_dist(roots, dist, ru, rv)),
{
    let p2 = parent.update(ru as int, rv);
    let r2 = merged_roots(roots, ru, rv);
    let d2 = merged_dist(roots, dist, ru, rv);
    assert(parent[ru as int] < parent.len());
    assert(parent[rv as int] < parent.len());
    assert forall|x: int| 0 <= x < p2.len() implies {
        &&& #[trigger] p2[x] < p2.len()
        &&& r2[x] < p2.len()
        &&& r2[r2[x] as int] == r2[x]
        &&& p2[r2[x] as int] == r2[x]
        &&& r2[p2[x] as int] == r2[x]
        &&& (p2[x] != x ==> d2[p2[x] as int] < d2[x])
        &&& (p2[x] == x ==> r2[x] == x)
    } by {
        assert(parent[x] < parent.len());
        assert(parent[roots[x] as int] < parent.len());
        assert(parent[parent[x] as int] < parent.len());
    }
}

/// While `roots` describes the components linked by `es`, so does the relabeling after
/// the edge `(u, v)` joins the components of `u` and `v`.
proof fn lemma_union_links(es: Seq<(usize, usize)>, roots: Seq<usize>, u: usize, v: usize)
    requires
        u < roots.len(),
        v < roots.len(),
        roots[u as int] != roots[v as int],
        forall|x: usize, y: usize|
            x < roots.len() && y < roots.len() ==> (roots[x as int] == roots[y as int] <==> #[trigger] linked(es, x, y)),
    ensures
        forall|x: usize, y: usize|
            x < roots.len() && y < roots.len() ==> (merged_roots(roots, roots[u as int], roots[v as int])[x as int]
                == merged_roots(roots, roots[u as int], roots[v as int])[y as int] <==> #[trigger] linked(es.push((u, v)), x, y)),
{
    let ru = roots[u as int];
    let rv = roots[v as int];
    let r2 = merged_roots(roots, ru, rv);
    let es2 = es.push((u, v));
    assert forall|x: usize, y: usize|
        x < roots.len() && y < roots.len() implies (r2[x as int] == r2[y as int] <==> #[trigger] linked(es2, x, y)) by {
        if linked(es2, x, y) {
            lemma_linked_push(es, u, v, x, y);
            if linked(es, x, y) {
            } else if linked(es, x, u) && linked(es, v, y) {
            } else {
                assert(linked(es, x, v) && linked(es, u, y));
            }
        }
        if r2[x as int] == r2[y as int] {
            lemma_linked_pushed_edge(es, u, v);
            if roots[x as int] == roots[y as int] {
                assert(linked(es, x, y));
                lemma_linked_push_mono(es, (u, v), x, y);
            } else if roots[x as int] == ru {
                assert(roots[y as int] == rv);
                assert(linked(es, x, u));
                assert(linked(es, v, y));
                lemma_linked_push_mono(es, (u, v), x, u);
                lemma_linked_push_mono(es, (u, v), v, y);
                lemma_linked_trans(es2, x, u, v);
                lemma_linked_trans(es2, x, v, y);
            } else {
                assert(roots[x as int] == rv);
                assert(roots[y as int] == ru);
                assert(linked(es, x, v));
                assert(linked(es, u, y));
                lemma_linked_push_mono(es, (u, v), x, v);
                lemma_linked_push_mono(es, (u, v), u, y);
                lemma_linked_symm(es2, u, v);
                lemma_linked_trans(es2, x, v, u);
                lemma_linked_trans(es2, x, u, y);
            }
        }
    }
}

/// An edge inside one component changes no link.
proof fn lemma_same_links(es: Seq<(usize, usize)>, roots: Seq<usize>, u: usize, v: usize)
    requires
        u < roots.len(),
        v < roots.len(),
        roots[u as int] == roots[v as int],
        forall|x: usize, y: usize|
            x < roots.len() && y < roots.len() ==> (roots[x as int] == roots[y as int] <==> #[trigger] linked(es, x, y)),
    ensures
        forall|x: usize, y: usize|
            x < roots.len() && y < roots.len() ==> (roots[x as int] == roots[y as int] <==> #[trigger] linked(es.push((u, v)), x, y)),
{
    let es2 = es.push((u, v));
    assert forall|x: usize, y: usize|
        x < roots.len() && y < roots.len() implies (roots[x as int] == roots[y as int] <==> #[trigger] linked(es2, x, y)) by {
        if linked(es2, x, y) {
            lemma_linked_push(es, u, v, x, y);
            assert(linked(es, u, v));
            if linked(es, x, y) {
            } else if linked(es, x, u) && linked(es, v, y) {
                assert(roots[x as int] == roots[u as int]);
                assert(roots[v as int] == roots[y as int]);
            } else {
                assert(linked(es, x, v) && linked(es, u, y));
                assert(roots[x as int] == roots[v as int]);
                assert(roots[u as int] == roots[y as int]);
            }
        }
        if roots[x as int] == roots[y as int] {
            assert(linked(es, x, y));
            lemma_linked_push_mono(es, (u, v), x, y);
        }
    }
}

proof fn lemma_filtration_step(g: Graph, order: Seq<usize>, k: int)
    requires
        0 <= k < order.len(),
    ensures
        filtration(g, order, k + 1) == filtration(g, order, k).push(g.edges@[order[k] as int]),
{
    assert(order.take(k + 1) =~= order.take(k).push(order[k]));
    assert(filtration(g, order, k + 1) =~= filtration(g, order, k).push(g.edges@[order[k] as int]));
}

/// An edge order reaches every edge, so the whole filtration holds every edge of the graph.
proof fn lemma_full_filtration(g: Graph, order: Seq<usize>, m: usize)
    requires
        m == g.edges@.len(),
        is_edge_order(g.edges@.len(), order),
    ensures
        forall|e: (usize, usize)|
            g.edges@.contains(e) ==> filtration(g, order, order.len() as int).contains(e),
{
    let f = filtration(g, order, m as int);
    order.unique_seq_to_set();
    lemma_vertex_range_len(m);
    assert forall|x: usize| order.to_set().contains(x) implies vertex_range(m).contains(x) by {
        let i = choose|i: int| 0 <= i < order.len() && order[i] == x;
        assert(order[i] < m);
    }
    vstd::set_lib::lemma_subset_equality(order.to_set(), vertex_range(m));
    assert(order.take(m as int) =~= order);
    assert forall|e: (usize, usize)| g.edges@.contains(e) implies f.contains(e) by {
        let j = choose|j: int| 0 <= j < m && g.edges@[j] == e;
        assert(vertex_range(m).contains(j as usize));
        assert(order.to_set().contains(j as usize));
        let i = choose|i: int| 0 <= i < order.len() && order[i] == j as usize;
        assert(f[i] == e);
    }
}

/// Among the vertices `0..=x`, some `y` is the first one whose representative is `r`.
proof fn lemma_first_with_root(roots: Seq<usize>, r: usize, x: usize) -> (y: usize)
    requires
        x < roots.len(),
        roots[x as int] == r,
    ensures
        y <= x,
        roots[y as int] == r,
        forall|z: usize| z < y ==> #[trigger] roots[z as int] != r,
    decreases x,
{
    if exists|z: usize| z < x && #[trigger] roots[z as int] == r {
        let z = choose|z: usize| z < x && #[trigger] roots[z as int] == r;
        lemma_first_with_root(roots, r, z)
    } else {
        x
    }
}

/// After the whole filtration, the union-find roots are in one-to-one correspondence
/// with the connected components of the graph.
proof fn lemma_final_components(
    g: Graph,
    order: Seq<usize>,
    m: usize,
    parent: Seq<usize>,
    roots: Seq<usize>,
    dist: Seq<nat>,
    root_set: Set<usize>,
)
    requires
        m == g.edges@.len(),
        is_edge_order(g.edges@.len(), order),
        parent.len() == g.n,
        uf_inv(parent, roots, dist),
        forall|x: usize, y: usize|
            x < g.n && y < g.n ==> (roots[x as int] == roots[y as int] <==> #[trigger] linked(
                filtration(g, order, m as int),
                x,
                y,
            )),
        root_set == Set::new(|x: usize| x < g.n && roots[x as int] == x),
        root_set.finite(),
        root_set.len() + merges_before(g, order, m as int) == g.n,
    ensures
        merges_before(g, order, m as int) + g.num_components() == g.n,
{
    let n = g.n;
    let f = filtration(g, order, m as int);
    lemma_full_filtration(g, order, m);
    assert forall|e: (usize, usize)| f.contains(e) implies g.edges@.contains(e) by {
        let i = choose|i: int| 0 <= i < f.len() && f[i] == e;
        assert(order.take(m as int)[i] < m);
    }
    // Links along the filtration are links in the graph, and conversely.
    assert forall|x: usize, y: usize|
        x < n && y < n implies (roots[x as int] == roots[y as int] <==> #[trigger] linked(
        g.edges@,
        x,
        y,
    )) by {
        if linked(g.edges@, x, y) {
            lemma_linked_mono(g.edges@, f, x, y);
        }
        if linked(f, x, y) {
            lemma_linked_mono(f, g.edges@, x, y);
        }
    }
    let leaders = g.component_leaders();
    let to_root = |x: usize| roots[x as int];
    lemma_vertex_range_len(n);
    assert(leaders.subset_of(vertex_range(n)));
    vstd::set_lib::lemma_len_subset(leaders, vertex_range(n));
    assert(vstd::relations::injective_on(to_root, leaders)) by {
        assert forall|x: usize, y: usize|
            leaders.contains(x) && leaders.contains(y) && #[trigger] to_root(x) == #[trigger] to_root(
                y,
            ) implies x == y by {
            assert(linked(g.edges@, x, y));
            assert(linked(g.edges@, y, x));
        }
    }
    assert(leaders.map(to_root) =~= root_set) by {
        assert forall|r: usize| root_set.contains(r) implies #[trigger] leaders.map(
            to_root,
        ).contains(r) by {
            let x = lemma_first_with_root(roots, r, r);
            assert forall|y: usize| y < x implies !#[trigger] linked(g.edges@, y, x) by {
                assert(roots[y as int] != r);
            }
            assert(leaders.contains(x));
            assert(to_root(x) == r);
        }
        assert forall|r: usize| #[trigger] leaders.map(to_root).contains(r) implies root_set.contains(
            r,
        ) by {
            let x = choose|x: usize| leaders.contains(x) && to_root(x) == r;
            assert(parent[x as int] < n);
        }
    }
    vstd::set_lib::lemma_map_size(leaders, root_set, to_root);
}

/// Persistent sheaf cohomology over the edge filtration of a graph.
#[derive(Debug)]
pub struct PersistentSheaf {
    /// The full graph.
    pub graph: Graph,
    /// The sheaf.
    pub sheaf: Sheaf,
}

impl PersistentSheaf {
    /// Create a new persistent sheaf computation.
    pub fn new(graph: Graph, sheaf: Sheaf) -> (p: Self)
        ensures
            p.graph == graph,
            p.sheaf == sheaf,
    {
        PersistentSheaf { graph, sheaf }
    }

    /// The subgraph holding the first `k` edges of the filtration, in filtration order.
    pub fn filtration_subgraph(&self, order: &Vec<usize>, k: usize) -> (sub: Graph)
        requires
            self.graph.well_formed(),
            is_edge_order(self.graph.edges@.len(), order@),
            k <= order@.len(),
        ensures
            sub.well_formed(),
            sub.n == self.graph.n,
            sub.edges@ == filtration(self.graph, order@, k as int),
    {
        let g = &self.graph;
        let ghost gg = *g;
        let mut sub = Graph::new(g.n);
        let mut i: usize = 0;
        while i < k
            invariant
                gg == *g,
                gg.well_formed(),
                is_edge_order(gg.edges@.len(), order@),
                k <= order@.len(),
                i <= k,
                sub.well_formed(),
                sub.n == gg.n,
                sub.edges@ == filtration(gg, order@, i as int),
            decreases k - i,
        {
            let ei = order[i];
            let (u, v) = g.edges[ei];
            proof {
                assert(order@[i as int] < gg.edges@.len());
                assert(gg.adjacent(u, v));
                lemma_filtration_step(gg, order@, i as int);
                if sub.adjacent(u, v) {
                    assert(sub.edges@.contains((u, v)));
                    let j = choose|j: int| 0 <= j < sub.edges@.len() && sub.edges@[j] == (u, v);
                    assert(order@.take(i as int)[j] == order@[j]);
                    assert(gg.edges@[order@[j] as int] == gg.edges@[order@[i as int] as int]);
                    assert(order@[j] < gg.edges@.len());
                    assert(order@[j] == order@[i as int]);
                }
            }
            sub.add_edge(u, v);
            i += 1;
        }
        sub
    }

    /// The stalk layout of the sheaf restricted to the first `k` edges of the filtration:
    /// the same vertex stalks, and the edge stalks in filtration order.
    pub fn filtration_subsheaf(&self, order: &Vec<usize>, k: usize) -> (sub: Sheaf)
        requires
            k <= order@.len(),
            forall|i: int| 0 <= i < k ==> #[trigger] order@[i] < self.sheaf.edge_dims@.len(),
        ensures
            sub.vertex_dims@ == self.sheaf.vertex_dims@,
            sub.edge_dims@ == order@.take(k as int).map_values(
                |ei: usize| self.sheaf.edge_dims@[ei as int],
            ),
    {
        let mut vertex_dims: Vec<usize> = Vec::new();
        let mut j: usize = 0;
        while j < self.sheaf.vertex_dims.len()
            invariant
                j <= self.sheaf.vertex_dims@.len(),
                vertex_dims@ == self.sheaf.vertex_dims@.take(j as int),
            decreases self.sheaf.vertex_dims@.len() - j,
        {
            vertex_dims.push(self.sheaf.vertex_dims[j]);
            j += 1;
            assert(vertex_dims@ =~= self.sheaf.vertex_dims@.take(j as int));
        }
        assert(vertex_dims@ =~= self.sheaf.vertex_dims@);
        let mut edge_dims: Vec<usize> = Vec::new();
        let mut i: usize = 0;
        while i < k
            invariant
                k <= order@.len(),
                forall|t: int| 0 <= t < k ==> #[trigger] order@[t] < self.sheaf.edge_dims@.len(),
                i <= k,
                edge_dims@ == order@.take(i as int).map_values(
                    |ei: usize| self.sheaf.edge_dims@[ei as int],
                ),
            decreases k - i,
        {
            assert(order@[i as int] < self.sheaf.edge_dims@.len());
            edge_dims.push(self.sheaf.edge_dims[order[i]]);
            i += 1;
            assert(edge_dims@ =~= order@.take(i as int).map_values(
                |ei: usize| self.sheaf.edge_dims@[ei as int],
            ));
        }
        Sheaf { vertex_dims, edge_dims }
    }

    /// Persistent H⁰ from the kernel dimensions of the sheaf Laplacian along the filtration:
    /// `kernel_dims[k]` is dim ker L once the first `k + 1` edges are in. All bars of C⁰ are
    /// born at the start; whenever the kernel dimension drops, that many of the first living
    /// bars die at that step. Returns the step at which each bar dies.
    pub fn compute_persistent_h0_exact(&self, kernel_dims: &Vec<usize>) -> (deaths: Vec<
        Option<usize>,
    >)
        requires
            stalk_sum(self.sheaf.vertex_dims@) <= usize::MAX,
            forall|k: int|
                0 <= k < kernel_dims@.len() ==> #[trigger] kernel_dims@[k] <= kernel_dim_before(
                    stalk_sum(self.sheaf.vertex_dims@),
                    kernel_dims@,
                    k,
                ),
        ensures
            deaths@.len() == stalk_sum(self.sheaf.vertex_dims@),
            forall|b: int|
                0 <= b < deaths@.len() ==> exact_death_after(
                    stalk_sum(self.sheaf.vertex_dims@),
                    kernel_dims@,
                    kernel_dims@.len() as int,
                    b,
                    #[trigger] deaths@[b],
                ),
    {
        let total = self.sheaf.total_vertex_dim();
        let ghost dims = kernel_dims@;
        let mut deaths: Vec<Option<usize>> = Vec::new();
        let mut b: usize = 0;
        while b < total
            invariant
                b <= total,
                deaths@.len() == b,
                forall|c: int| 0 <= c < b ==> #[trigger] deaths@[c] is None,
            decreases total - b,
        {
            deaths.push(None);
            b += 1;
        }
        let mut prev_dim = total;
        let mut step: usize = 0;
        while step < kernel_dims.len()
            invariant
                total == stalk_sum(self.sheaf.vertex_dims@),
                dims == kernel_dims@,
                forall|k: int|
                    0 <= k < dims.len() ==> #[trigger] dims[k] <= kernel_dim_before(total as nat, dims, k),
                step <= dims.len(),
                prev_dim == kernel_dim_before(total as nat, dims, step as int),
                prev_dim <= total,
                deaths@.len() == total,
                forall|c: int|
                    0 <= c < total ==> exact_death_after(
                        total as nat,
                        dims,
                        step as int,
                        c,
                        #[trigger] deaths@[c],
                    ),
            decreases dims.len() - step,
        {
            let new_dim = kernel_dims[step];
            proof {
                assert(dims[step as int] <= kernel_dim_before(total as nat, dims, step as int));
            }
            let killed = prev_dim - new_dim;
            let ghost lo: int = total - prev_dim;
            let ghost before = deaths@;
            proof {
                assert forall|t: int| 0 <= t < total implies (#[trigger] before[t] is Some <==> t < lo) by {
                    assert(exact_death_after(total as nat, dims, step as int, t, before[t]));
                    if let Some(j) = before[t] {
                        self.lemma_dims_antitone(total as nat, dims, j as int, step as int - 1);
                    }
                }
            }
            let mut count: usize = 0;
            let mut c: usize = 0;
            while c < deaths.len()
                invariant
                    deaths@.len() == total,
                    before.len() == total,
                    c <= total,
                    0 <= lo,
                    lo + killed <= total,
                    count == (if c <= lo {
                        0
                    } else if c - lo <= killed {
                        c - lo
                    } else {
                        killed as int
                    }),
                    forall|t: int| 0 <= t < total ==> (#[trigger] before[t] is Some <==> t < lo),
                    forall|t: int|
                        0 <= t < c ==> #[trigger] deaths@[t] == if t < lo {
                            before[t]
                        } else if t < lo + killed {
                            Some(step)
                        } else {
                            None
                        },
                    forall|t: int| c <= t < total ==> #[trigger] deaths@[t] == before[t],
                decreases total - c,
            {
                if deaths[c].is_none() && count < killed {
                    deaths.set(c, Some(step));
                    count += 1;
                }
                c += 1;
            }
            proof {
                assert forall|t: int| 0 <= t < total implies exact_death_after(
                    total as nat,
                    dims,
                    step as int + 1,
                    t,
                    #[trigger] deaths@[t],
                ) by {
                    assert(exact_death_after(total as nat, dims, step as int, t, before[t]));
                }
            }
            prev_dim = new_dim;
            step += 1;
        }
        deaths
    }

    proof fn lemma_dims_antitone(&self, total: nat, dims: Seq<usize>, j: int, k: int)
        requires
            forall|i: int| 0 <= i < dims.len() ==> #[trigger] dims[i] <= kernel_dim_before(total, dims, i),
            0 <= j <= k < dims.len(),
        ensures
            dims[k] <= dims[j],
        decreases k - j,
    {
        if j < k {
            assert(dims[k] <= kernel_dim_before(total, dims, k));
            self.lemma_dims_antitone(total, dims, j, k - 1);
        }
    }

    /// Persistent H⁰ with union-find, adding edges in the order `order` (edges sorted by
    /// weight). Every vertex contributes `d` bars born at the start, `d` being the stalk
    /// dimension of vertex 0; whenever an edge merges two components, the first `d`
    /// living bars die at that step. Returns the step at which each bar dies.
    pub fn compute_persistent_h0(&self, order: &Vec<usize>) -> (deaths: Vec<Option<usize>>)
        requires
            self.graph.well_formed(),
            self.sheaf.vertex_dims@.len() > 0,
            self.graph.n * self.sheaf.vertex_dims@[0] <= usize::MAX,
            is_edge_order(self.graph.edges@.len(), order@),
        ensures
            deaths@.len() == self.graph.n * self.sheaf.vertex_dims@[0],
            forall|b: int|
                0 <= b < deaths@.len() ==> h0_death_after(
                    self.graph,
                    order@,
                    self.sheaf.vertex_dims@[0] as nat,
                    order@.len() as int,
                    b,
                    #[trigger] deaths@[b],
                ),
            merges_before(self.graph, order@, order@.len() as int) + self.graph.num_components()
                == self.graph.n,
    {
        let g = &self.graph;
        let n = g.n;
        let m = g.edges.len();
        let d = self.sheaf.vertex_dims[0];
        let ghost gg = *g;
        let ghost ord = order@;

        let mut parent: Vec<usize> = Vec::new();
        let mut i: usize = 0;
        while i < n
            invariant
                i <= n,
                parent@ == Seq::new(i as nat, |x: int| x as usize),
            decreases n - i,
        {
            parent.push(i);
            i += 1;
            assert(parent@ =~= Seq::new(i as nat, |x: int| x as usize));
        }
        let ghost mut roots: Seq<usize> = Seq::new(n as nat, |x: int| x as usize);
        let ghost mut dist: Seq<nat> = Seq::new(n as nat, |x: int| 0nat);
        let ghost mut root_set: Set<usize> = vertex_range(n);

        let total = n * d;
        let mut deaths: Vec<Option<usize>> = Vec::new();
        let mut b: usize = 0;
        while b < total
            invariant
                b <= total,
                deaths@.len() == b,
                forall|c: int| 0 <= c < b ==> #[trigger] deaths@[c] is None,
            decreases total - b,
        {
            deaths.push(None);
            b += 1;
        }
        proof {
            lemma_vertex_range_len(n);
            assert(uf_inv(parent@, roots, dist));
            assert(root_set =~= Set::new(|x: usize| x < n && roots[x as int] == x));
            assert(filtration(gg, ord, 0) =~= Seq::<(usize, usize)>::empty());
            assert forall|x: usize, y: usize|
                x < n && y < n implies (roots[x as int] == roots[y as int] <==> #[trigger] linked(
                    filtration(gg, ord, 0),
                    x,
                    y,
                )) by {
                if linked(filtration(gg, ord, 0), x, y) {
                    lemma_linked_empty(x, y);
                }
                if x == y {
                    lemma_linked_refl(filtration(gg, ord, 0), x);
                }
            }
        }

        let mut k: usize = 0;
        while k < m
            invariant
                gg == *g,
                gg.well_formed(),
                ord == order@,
                is_edge_order(m as nat, ord),
                m == gg.edges@.len(),
                n == gg.n,
                d == self.sheaf.vertex_dims@[0],
                total == n * d,
                k <= m,
                parent@.len() == n,
                uf_inv(parent@, roots, dist),
                forall|x: usize, y: usize|
                    x < n && y < n ==> (roots[x as int] == roots[y as int] <==> #[trigger] linked(
                        filtration(gg, ord, k as int),
                        x,
                        y,
                    )),
                root_set == Set::new(|x: usize| x < n && roots[x as int] == x),
                root_set.finite(),
                root_set.len() + merges_before(gg, ord, k as int) == n,
                deaths@.len() == total,
                forall|c: int|
                    0 <= c < total ==> h0_death_after(
                        gg,
                        ord,
                        d as nat,
                        k as int,
                        c,
                        #[trigger] deaths@[c],
                    ),
            decreases m - k,
        {
            let ei = order[k];
            let (u, v) = g.edges[ei];
            proof {
                assert(ord[k as int] < m);
                assert(gg.adjacent(u, v));
                lemma_filtration_step(gg, ord, k as int);
            }
            let ru = find(&mut parent, u, Ghost(roots), Ghost(dist));
            let rv = find(&mut parent, v, Ghost(roots), Ghost(dist));
            let ghost f = filtration(gg, ord, k as int);
            let ghost mb = merges_before(gg, ord, k as int);
            proof {
                assert(parent@[u as int] < n);
                assert(parent@[v as int] < n);
                assert(ru == rv <==> linked(f, u, v));
                assert(merges_at(gg, ord, k as int) == (ru != rv));
                assert(merges_before(gg, ord, k as int + 1) == mb + if ru != rv {
                    1nat
                } else {
                    0nat
                });
            }
            if ru != rv {
                proof {
                    assert(parent@[ru as int] < n);
                    assert(parent@[rv as int] < n);
                    lemma_union_inv(parent@, roots, dist, ru, rv);
                    lemma_union_links(f, roots, u, v);
                    assert(root_set.contains(ru));
                    assert(root_set.contains(rv));
                    vstd::set_lib::lemma_len_subset(set![ru, rv], root_set);
                    assert(set![ru, rv].len() == 2);
                }
                parent.set(ru, rv);
                let ghost old_roots = roots;
                proof {
                    dist = merged_dist(roots, dist, ru, rv);
                    roots = merged_roots(roots, ru, rv);
                    let old_set = root_set;
                    root_set = root_set.remove(ru);
                    assert(root_set =~= Set::new(|x: usize| x < n && roots[x as int] == x)) by {
                        assert forall|x: usize| #[trigger] root_set.contains(x) <==> (x < n && roots[x as int] == x) by {
                            if x < n {
                                assert(parent@[x as int] < n);
                            }
                        }
                    }
                    assert(mb + 2 <= n);
                    assert((mb + 1) * d <= n * d) by (nonlinear_arith)
                        requires
                            mb + 2 <= n,
                    ;
                    assert(mb * d + d == (mb + 1) * d) by (nonlinear_arith);
                }
                let ghost lo: int = mb * d;
                let ghost before = deaths@;
                proof {
                    assert forall|t: int| 0 <= t < total implies (#[trigger] before[t] is Some <==> t < lo) by {
                        lemma_dead_below(gg, ord, d as nat, k as int, t, before[t]);
                    }
                }
                let mut killed: usize = 0;
                let mut c: usize = 0;
                while c < deaths.len()
                    invariant
                        deaths@.len() == total,
                        before.len() == total,
                        c <= total,
                        0 <= lo,
                        lo + d <= total,
                        killed == (if c <= lo {
                            0
                        } else if c - lo <= d {
                            c - lo
                        } else {
                            d as int
                        }),
                        forall|t: int| 0 <= t < total ==> (#[trigger] before[t] is Some <==> t < lo),
                        forall|t: int|
                            0 <= t < c ==> #[trigger] deaths@[t] == if t < lo {
                                before[t]
                            } else if t < lo + d {
                                Some(k)
                            } else {
                                None
                            },
                        forall|t: int| c <= t < total ==> #[trigger] deaths@[t] == before[t],
                    decreases total - c,
                {
                    if deaths[c].is_none() && killed < d {
                        deaths.set(c, Some(k));
                        killed += 1;
                    }
                    c += 1;
                }
                proof {
                    assert forall|t: int| 0 <= t < total implies h0_death_after(
                        gg,
                        ord,
                        d as nat,
                        k as int + 1,
                        t,
                        #[trigger] deaths@[t],
                    ) by {
                        assert(h0_death_after(gg, ord, d as nat, k as int, t, before[t]));
                    }
                }
            } else {
                proof {
                    lemma_same_links(f, roots, u, v);
                    assert forall|t: int| 0 <= t < total implies h0_death_after(
                        gg,
                        ord,
                        d as nat,
                        k as int + 1,
                        t,
                        #[trigger] deaths@[t],
                    ) by {
                        assert(h0_death_after(gg, ord, d as nat, k as int, t, deaths@[t]));
                    }
                }
            }
            k += 1;
        }
        proof {
            lemma_final_components(gg, ord, m, parent@, roots, dist, root_set);
        }
        deaths
    }
}

} // verus!
