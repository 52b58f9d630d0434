//! Simple undirected graph representation.

use std::collections::BTreeSet;
use vstd::prelude::*;
use vstd::std_specs::btree::spec_btree_keys_iter;
use vstd::std_specs::iter::IteratorSpec;
use crate::walk::{is_walk, joined, lemma_linked_refl, lemma_linked_step, linked, walk_step};

verus! {

/// Undirected graph on the vertices `0..n`.
#[derive(Clone, Debug)]
pub struct Graph {
    /// Number of vertices.
    pub n: usize,
    /// Adjacency: vertex → set of neighbors.
    pub adj: Vec<BTreeSet<usize>>,
    /// Edge list: (u, v) with u < v, in insertion order.
    pub edges: Vec<(usize, usize)>,
}

/// The vertices `0..n`.
pub open spec fn vertex_range(n: usize) -> Set<usize> {
    Set::new(|w: usize| w < n)
}

/// Number of edges of the complete graph on `n` vertices.
pub open spec fn complete_edge_count(n: nat) -> nat {
    (n * (n - 1) / 2) as nat
}

/// `u` and `v` are consecutive on the path `0 - 1 - ... - (n-1)`.
pub open spec fn path_adjacent(n: usize, u: usize, v: usize) -> bool {
    u < n && v < n && (u + 1 == v || v + 1 == u)
}

/// `u` and `v` are consecutive on the cycle `0 - 1 - ... - (n-1) - 0` (for `n > 2`).
pub open spec fn cycle_adjacent(n: usize, u: usize, v: usize) -> bool {
    path_adjacent(n, u, v) || (n > 2 && ((u == 0 && v == n - 1) || (u == n - 1 && v == 0)))
}

/// There are `n` vertices below `n`.
pub proof fn lemma_vertex_range_len(n: usize)
    ensures
        vertex_range(n).finite(),
        vertex_range(n).len() == n,
    decreases n,
{
    if n == 0 {
        assert(vertex_range(0) =~= Set::<usize>::empty());
    } else {
        lemma_vertex_range_len((n - 1) as usize);
        assert(vertex_range(n) =~= vertex_range((n - 1) as usize).insert((n - 1) as usize));
    }
}

proof fn lemma_complete_count_step(n: nat, u: nat)
    requires
        u < n,
    ensures
        u * (n - 1) - u * (u - 1) / 2 + (n - 1 - u) == (u + 1) * (n - 1) - (u + 1) * u / 2,
{
    assert((u + 1) * (n - 1) == u * (n - 1) + (n - 1)) by (nonlinear_arith);
    assert((u + 1) * u == u * (u - 1) + 2 * u) by (nonlinear_arith);
    assert(((u + 1) * u) / 2 == (u * (u - 1)) / 2 + u) by (nonlinear_arith)
        requires
            (u + 1) * u == u * (u - 1) + 2 * u,
    ;
}

proof fn lemma_half_of_pronic(n: nat)
    ensures
        n * (n - 1) - n * (n - 1) / 2 == n * (n - 1) / 2,
{
    if n % 2 == 0 {
        let k = n / 2;
        assert(n * (n - 1) == 2 * (k * (n - 1))) by (nonlinear_arith)
            requires
                n == 2 * k,
        ;
    } else {
        let k = (n - 1) / 2;
        assert(n * (n - 1) == 2 * (n * k)) by (nonlinear_arith)
            requires
                n - 1 == 2 * k,
        ;
    }
}

/// `e` comes before `f` in lexicographic order.
pub open spec fn lex_less(e: (usize, usize), f: (usize, usize)) -> bool {
    e.0 < f.0 || (e.0 == f.0 && e.1 < f.1)
}

/// The pair `(u, v)` written with its smaller vertex first.
pub open spec fn ordered_pair(u: usize, v: usize) -> (usize, usize) {
    if u < v { (u, v) } else { (v, u) }
}

impl Graph {
    /// `v` is a neighbor of `u`.
    pub open spec fn adjacent(&self, u: usize, v: usize) -> bool {
        u < self.adj@.len() && self.adj@[u as int]@.contains(v)
    }

    /// The adjacency sets and the edge list describe the same simple undirected graph.
    pub open spec fn well_formed(&self) -> bool {
        &&& self.adj@.len() == self.n
        &&& forall|u: int| 0 <= u < self.n ==> #[trigger] self.adj@[u]@.finite()
        &&& forall|u: usize, v: usize| #[trigger]
            self.adjacent(u, v) ==> u < self.n && v < self.n && u != v && self.adjacent(v, u)
        &&& forall|i: int|
            0 <= i < self.edges@.len() ==> {
                let (a, b) = #[trigger] self.edges@[i];
                a < b && self.adjacent(a, b)
            }
        &&& forall|u: usize, v: usize|
            #[trigger] self.adjacent(u, v) && u < v ==> self.edges@.contains((u, v))
        &&& self.edges@.no_duplicates()
    }

    /// Create an empty graph with `n` vertices.
    pub fn new(n: usize) -> (g: Self)
        ensures
            g.well_formed(),
            g.n == n,
            g.edges@ == Seq::<(usize, usize)>::empty(),
            forall|u: usize, v: usize| !g.adjacent(u, v),
    {
        let mut adj: Vec<BTreeSet<usize>> = Vec::new();
        let mut i: usize = 0;
        while i < n
            invariant
                i <= n,
                adj@.len() == i,
                forall|u: int| 0 <= u < i ==> #[trigger] adj@[u]@ == Set::<usize>::empty(),
            decreases n - i,
        {
            adj.push(BTreeSet::new());
            i += 1;
        }
        let g = Graph { n, adj, edges: Vec::new() };
        assert forall|u: usize, v: usize| !g.adjacent(u, v) by {
            if u < g.adj@.len() {
                assert(g.adj@[u as int]@ == Set::<usize>::empty());
            }
        }
        g
    }

    /// Add an undirected edge (u, v); nothing changes when it is already present.
    pub fn add_edge(&mut self, u: usize, v: usize)
        requires
            old(self).well_formed(),
            u < old(self).n,
            v < old(self).n,
            u != v,
        ensures
            final(self).well_formed(),
            final(self).n == old(self).n,
            forall|a: usize, b: usize|
                #[trigger] final(self).adjacent(a, b) <==> old(self).adjacent(a, b) || (a == u
                    && b == v) || (a == v && b == u),
            old(self).adjacent(u, v) ==> final(self).edges@ == old(self).edges@,
            !old(self).adjacent(u, v) ==> final(self).edges@ == old(self).edges@.push(
                ordered_pair(u, v),
            ),
    {
        if !self.adj[u].contains(&v) {
            let ghost old_g = *self;
            self.adj[u].insert(v);
            self.adj[v].insert(u);
            let (a, b) = if u < v {
                (u, v)
            } else {
                (v, u)
            };
            self.edges.push((a, b));
            assert forall|x: usize, y: usize| #[trigger]
                self.adjacent(x, y) <==> old_g.adjacent(x, y) || (x == u && y == v) || (x == v
                    && y == u) by {
                if x < self.n {
                    if x != u && x != v {
                        assert(self.adj@[x as int] == old_g.adj@[x as int]);
                    }
                }
            }
            assert(!old_g.edges@.contains((a, b)));
            assert forall|x: usize, y: usize|
                #[trigger] self.adjacent(x, y) && x < y implies self.edges@.contains((x, y)) by {
                if old_g.adjacent(x, y) {
                    let k = choose|k: int| 0 <= k < old_g.edges@.len() && old_g.edges@[k] == (x, y);
                    assert(self.edges@[k] == (x, y));
                } else {
                    assert(self.edges@[self.edges@.len() - 1] == (x, y));
                }
            }
            assert forall|w: int| 0 <= w < self.n implies #[trigger] self.adj@[w]@.finite() by {
                assert(old_g.adj@[w]@.finite());
            }
        } else {
            assert(self.adjacent(u, v));
            assert(self.adjacent(v, u));
        }
    }

    /// Build a complete graph on n vertices.
    pub fn complete(n: usize) -> (g: Self)
        ensures
            g.well_formed(),
            g.n == n,
            forall|u: usize, v: usize| #[trigger] g.adjacent(u, v) <==> u < n && v < n && u != v,
            g.edges@.len() == complete_edge_count(n as nat),
            forall|i: int, j: int|
                0 <= i < j < g.edges@.len() ==> lex_less(#[trigger] g.edges@[i], #[trigger] g.edges@[j]),
            forall|v: int| 0 <= v < n ==> (#[trigger] g.adj@[v])@.len() == n - 1,
    {
        let mut g = Self::new(n);
        let mut u: usize = 0;
        while u < n
            invariant
                g.well_formed(),
                g.n == n,
                u <= n,
                forall|a: usize, b: usize| #[trigger]
                    g.adjacent(a, b) <==> a < n && b < n && a != b && (a < u || b < u),
                g.edges@.len() == u * (n - 1) - u * (u - 1) / 2,
                forall|i: int, j: int|
                    0 <= i < j < g.edges@.len() ==> lex_less(#[trigger] g.edges@[i], #[trigger] g.edges@[j]),
            decreases n - u,
        {
            let mut v: usize = u + 1;
            while v < n
                invariant
                    g.well_formed(),
                    g.n == n,
                    u < n,
                    u + 1 <= v <= n,
                    forall|a: usize, b: usize| #[trigger]
                        g.adjacent(a, b) <==> a < n && b < n && a != b && (a < u || b < u || (a
                            == u && b < v) || (b == u && a < v)),
                    g.edges@.len() == u * (n - 1) - u * (u - 1) / 2 + (v - u - 1),
                    forall|i: int, j: int|
                        0 <= i < j < g.edges@.len() ==> lex_less(#[trigger] g.edges@[i], #[trigger] g.edges@[j]),
                decreases n - v,
            {
                let ghost before = g.edges@;
                proof {
                    assert forall|i: int| 0 <= i < before.len() implies lex_less(#[trigger] before[i], (u, v)) by {
                        let (a, b) = before[i];
                        assert(g.adjacent(a, b));
                    }
                }
                g.add_edge(u, v);
                proof {
                    assert(g.edges@ == before.push((u, v)));
                    assert forall|i: int, j: int|
                        0 <= i < j < g.edges@.len() implies lex_less(#[trigger] g.edges@[i], #[trigger] g.edges@[j]) by {
                        if j == before.len() {
                            assert(lex_less(before[i], (u, v)));
                        } else {
                            assert(lex_less(before[i], before[j]));
                        }
                    }
                }
                v += 1;
            }
            proof {
                lemma_complete_count_step(n as nat, u as nat);
            }
            u += 1;
        }
        proof {
            lemma_half_of_pronic(n as nat);
        }
        assert forall|v: int| 0 <= v < n implies (#[trigger] g.adj@[v])@.len() == n - 1 by {
            lemma_vertex_range_len(n);
            assert(g.adjacent(v as usize, v as usize) == false);
            assert(g.adj@[v]@ =~= vertex_range(n).remove(v as usize)) by {
                assert forall|w: usize| #[trigger] g.adj@[v]@.contains(w) <==> vertex_range(n).remove(
                    v as usize,
                ).contains(w) by {
                    assert(g.adjacent(v as usize, w) == g.adj@[v]@.contains(w));
                }
            }
        }
        g
    }

    /// Build a path graph on n vertices.
    pub fn path(n: usize) -> (g: Self)
        ensures
            g.well_formed(),
            g.n == n,
            forall|u: usize, v: usize| #[trigger] g.adjacent(u, v) <==> path_adjacent(n, u, v),
            g.edges@ == Seq::new(
                (if n == 0 {
                    0
                } else {
                    n - 1
                }) as nat,
                |i: int| (i as usize, (i + 1) as usize),
            ),
            n >= 2 ==> g.adj@[0]@.len() == 1 && g.adj@[n - 1]@.len() == 1,
            forall|v: int| 0 < v < n - 1 ==> (#[trigger] g.adj@[v])@.len() == 2,
    {
        let mut g = Self::new(n);
        let last = if n == 0 {
            0
        } else {
            n - 1
        };
        let mut i: usize = 0;
        while i < last
            invariant
                g.well_formed(),
                g.n == n,
                last == (if n == 0 {
                    0
                } else {
                    n - 1
                }),
                i <= last,
                forall|a: usize, b: usize| #[trigger]
                    g.adjacent(a, b) <==> path_adjacent(n, a, b) && a <= i && b <= i,
                g.edges@ == Seq::new(i as nat, |k: int| (k as usize, (k + 1) as usize)),
            decreases last - i,
        {
            g.add_edge(i, i + 1);
            proof {
                assert(g.edges@ =~= Seq::new((i + 1) as nat, |k: int| (k as usize, (k + 1) as usize)));
            }
            i += 1;
        }
        proof {
            Self::lemma_path_degrees(g, n);
        }
        g
    }

    proof fn lemma_path_degrees(g: Graph, n: usize)
        requires
            g.well_formed(),
            g.n == n,
            forall|u: usize, v: usize| #[trigger] g.adjacent(u, v) <==> path_adjacent(n, u, v),
        ensures
            n >= 2 ==> g.adj@[0]@.len() == 1 && g.adj@[n - 1]@.len() == 1,
            forall|v: int| 0 < v < n - 1 ==> (#[trigger] g.adj@[v])@.len() == 2,
    {
        if n >= 2 {
            assert(g.adj@[0]@ =~= set![1usize]) by {
                assert forall|w: usize| #[trigger] g.adj@[0]@.contains(w) <==> w == 1 by {
                    assert(g.adjacent(0, w) == g.adj@[0]@.contains(w));
                }
            }
            assert(g.adj@[n - 1]@ =~= set![(n - 2) as usize]) by {
                assert forall|w: usize| #[trigger] g.adj@[n - 1]@.contains(w) <==> w == n - 2 by {
                    assert(g.adjacent((n - 1) as usize, w) == g.adj@[n - 1]@.contains(w));
                }
            }
        }
        assert forall|v: int| 0 < v < n - 1 implies (#[trigger] g.adj@[v])@.len() == 2 by {
            assert(g.adj@[v]@ =~= set![(v - 1) as usize, (v + 1) as usize]) by {
                assert forall|w: usize| #[trigger] g.adj@[v]@.contains(w) <==> w == v - 1 || w == v + 1 by {
                    assert(g.adjacent(v as usize, w) == g.adj@[v]@.contains(w));
                }
            }
        }
    }

    /// Build a cycle graph on n vertices (a path when n <= 2).
    pub fn cycle(n: usize) -> (g: Self)
        ensures
            g.well_formed(),
            g.n == n,
            forall|u: usize, v: usize| #[trigger] g.adjacent(u, v) <==> cycle_adjacent(n, u, v),
            n <= 2 ==> g.edges@ == Seq::new(
                (if n == 0 {
                    0
                } else {
                    n - 1
                }) as nat,
                |i: int| (i as usize, (i + 1) as usize),
            ),
            n > 2 ==> g.edges@ == Seq::new((n - 1) as nat, |i: int| (i as usize, (i + 1) as usize)).push(
                (0usize, (n - 1) as usize),
            ),
            n > 2 ==> forall|v: int| 0 <= v < n ==> (#[trigger] g.adj@[v])@.len() == 2,
    {
        let mut g = Self::path(n);
        if n > 2 {
            g.add_edge(n - 1, 0);
            assert forall|v: int| 0 <= v < n implies (#[trigger] g.adj@[v])@.len() == 2 by {
                let l = if v == 0 { (n - 1) as usize } else { (v - 1) as usize };
                let r = if v == n - 1 { 0usize } else { (v + 1) as usize };
                assert(g.adj@[v]@ =~= set![l, r]) by {
                    assert forall|w: usize| #[trigger] g.adj@[v]@.contains(w) <==> w == l || w == r by {
                        assert(g.adjacent(v as usize, w) == g.adj@[v]@.contains(w));
                    }
                }
            }
        }
        g
    }

    /// Every vertex can be reached from vertex 0 along the edges.
    pub open spec fn connected(&self) -> bool {
        forall|v: usize| v < self.n ==> #[trigger] linked(self.edges@, 0, v)
    }

    /// Vertices that are the smallest vertex of their connected component.
    pub open spec fn component_leaders(&self) -> Set<usize> {
        Set::new(
            |x: usize| x < self.n && forall|y: usize| y < x ==> !#[trigger] linked(self.edges@, y, x),
        )
    }

    /// Number of connected components.
    pub open spec fn num_components(&self) -> nat {
        self.component_leaders().len()
    }

    /// A nonempty connected graph has exactly one component.
    pub proof fn lemma_connected_one_component(&self)
        requires
            self.connected(),
            self.n > 0,
        ensures
            self.num_components() == 1,
    {
        assert(self.component_leaders() =~= set![0usize]) by {
            assert forall|x: usize| #[trigger] self.component_leaders().contains(x) <==> x == 0 by {
                if x > 0 && x < self.n {
                    assert(linked(self.edges@, 0, x));
                }
            }
        }
    }

    /// For a well-formed graph, adjacency is exactly being joined by a listed edge.
    pub proof fn lemma_adjacent_iff_joined(&self, a: usize, b: usize)
        requires
            self.well_formed(),
        ensures
            self.adjacent(a, b) <==> joined(self.edges@, a, b),
    {
        if self.adjacent(a, b) {
            if a < b {
                assert(self.edges@.contains((a, b)));
            } else {
                assert(self.adjacent(b, a));
                assert(self.edges@.contains((b, a)));
            }
        }
        if self.edges@.contains((a, b)) {
            let i = choose|i: int| 0 <= i < self.edges@.len() && self.edges@[i] == (a, b);
            assert(self.edges@[i] == (a, b));
        }
        if self.edges@.contains((b, a)) {
            let i = choose|i: int| 0 <= i < self.edges@.len() && self.edges@[i] == (b, a);
            assert(self.edges@[i] == (b, a));
            assert(self.adjacent(b, a));
        }
    }

    /// Check if the graph is connected, by a depth-first search from vertex 0.
    pub fn is_connected(&self) -> (c: bool)
        requires
            self.well_formed(),
        ensures
            c == self.connected(),
    {
        let n = self.n;
        if n == 0 {
            return true;
        }
        let mut visited: Vec<bool> = Vec::new();
        let mut i: usize = 0;
        while i < n
            invariant
                i <= n,
                visited@.len() == i,
                forall|k: int| 0 <= k < i ==> !visited@[k],
            decreases n - i,
        {
            visited.push(false);
            i += 1;
        }
        let mut queue: Vec<usize> = Vec::new();
        queue.push(0);
        visited.set(0, true);
        let mut count: usize = 1;
        let ghost mut seen: Set<usize> = set![0usize];
        proof {
            assert(seen =~= Set::new(|x: usize| x < n && visited@[x as int]));
            lemma_linked_refl(self.edges@, 0);
            assert(queue@[0] == 0);
        }
        while queue.len() > 0
            invariant
                self.well_formed(),
                n == self.n,
                n > 0,
                visited@.len() == n,
                visited@[0],
                seen == Set::new(|x: usize| x < n && visited@[x as int]),
                seen.finite(),
                count == seen.len(),
                count <= n,
                forall|x: usize| x < n && #[trigger] visited@[x as int] ==> linked(self.edges@, 0, x),
                forall|k: int|
                    0 <= k < queue@.len() ==> #[trigger] queue@[k] < n && visited@[queue@[k] as int],
                queue@.no_duplicates(),
                forall|x: usize, y: usize|
                    x < n && visited@[x as int] && !queue@.contains(x) && #[trigger] self.adjacent(x, y)
                        ==> visited@[y as int],
            decreases 2 * (n - count) + queue@.len(),
        {
            let ghost old_queue = queue@;
            let v = queue.pop().unwrap();
            let ghost queue_before = queue@;
            let ghost count_before = count;
            let nbrs: &BTreeSet<usize> = &self.adj[v];
            proof {
                assert(queue_before.push(v) =~= old_queue);
                assert(spec_btree_keys_iter(nbrs).remaining().unref().to_set() == nbrs@);
            }
            for u in it: nbrs.iter()
                invariant
                    self.well_formed(),
                    n == self.n,
                    v < n,
                    visited@.len() == n,
                    visited@[0],
                    visited@[v as int],
                    !queue@.contains(v),
                    seen == Set::new(|x: usize| x < n && visited@[x as int]),
                    seen.finite(),
                    count == seen.len(),
                    count <= n,
                    count - count_before == queue@.len() - queue_before.len(),
                    queue@.len() >= queue_before.len(),
                    forall|x: usize| x < n && #[trigger] visited@[x as int] ==> linked(self.edges@, 0, x),
                    forall|k: int|
                        0 <= k < queue@.len() ==> #[trigger] queue@[k] < n && visited@[queue@[k] as int],
                    queue@.no_duplicates(),
                    forall|x: usize, y: usize|
                        x != v && x < n && visited@[x as int] && !queue@.contains(x) && #[trigger] self.adjacent(x, y)
                            ==> visited@[y as int],
                    *nbrs == self.adj@[v as int],
                    it.seq() == spec_btree_keys_iter(nbrs).remaining(),
                    it.seq().unref().to_set() == nbrs@,
                    forall|j: int| 0 <= j < it.index() ==> visited@[*it.seq()[j] as int],
            {
                let w = *u;
                let ghost vis0 = visited@;
                let ghost q0 = queue@;
                proof {
                    let k = it.index();
                    assert(it.seq().unref()[k] == w);
                    assert(it.seq().unref().to_set().contains(w));
                    assert(self.adjacent(v, w));
                }
                if !visited[w] {
                    proof {
                        assert(seen.subset_of(vertex_range(n).remove(w)));
                        lemma_vertex_range_len(n);
                        vstd::set_lib::lemma_len_subset(seen, vertex_range(n).remove(w));
                        self.lemma_adjacent_iff_joined(v, w);
                        lemma_linked_step(self.edges@, 0, v, w);
                    }
                    visited.set(w, true);
                    count += 1;
                    queue.push(w);
                    proof {
                        seen = seen.insert(w);
                        assert(seen =~= Set::new(|x: usize| x < n && visited@[x as int]));
                        assert(queue@ =~= q0.push(w));
                        assert forall|x: usize, y: usize|
                            x != v && x < n && visited@[x as int] && !queue@.contains(x)
                                && #[trigger] self.adjacent(x, y) implies visited@[y as int] by {
                            if x != w {
                                assert(vis0[x as int]);
                                if q0.contains(x) {
                                    let k = choose|k: int| 0 <= k < q0.len() && q0[k] == x;
                                    assert(queue@[k] == x);
                                }
                                assert(vis0[y as int]);
                            } else {
                                assert(queue@[queue@.len() - 1] == w);
                            }
                        }
                    }
                }
                proof {
                    assert(visited@[w as int]);
                    assert forall|j: int| 0 <= j < it.index() + 1 implies visited@[*it.seq()[j] as int] by {
                        if j < it.index() {
                            let e = *it.seq()[j];
                            assert(it.seq().unref()[j] == e);
                            assert(it.seq().unref().to_set().contains(e));
                            assert(self.adjacent(v, e));
                            assert(vis0[e as int]);
                        } else {
                            assert(*it.seq()[j] == w);
                        }
                    }
                }
            }
        }
        proof {
            lemma_vertex_range_len(n);
            assert(seen.subset_of(vertex_range(n)));
            if self.connected() {
                assert forall|x: usize| x < n implies visited@[x as int] by {
                    assert(linked(self.edges@, 0, x));
                    self.lemma_closed_contains_linked(visited@, x);
                }
                assert(seen =~= vertex_range(n));
            } else {
                let x = choose|x: usize| x < n && !linked(self.edges@, 0, x);
                assert(!visited@[x as int]);
                assert(seen.subset_of(vertex_range(n).remove(x)));
                vstd::set_lib::lemma_len_subset(seen, vertex_range(n).remove(x));
            }
        }
        count == n
    }

    proof fn lemma_closed_contains_linked(&self, vis: Seq<bool>, x: usize)
        requires
            self.well_formed(),
            vis.len() == self.n,
            self.n > 0,
            vis[0],
            forall|a: usize, b: usize|
                a < self.n && vis[a as int] && #[trigger] self.adjacent(a, b) ==> vis[b as int],
            linked(self.edges@, 0, x),
        ensures
            x < self.n,
            vis[x as int],
    {
        let p = choose|p: Seq<usize>| #[trigger] is_walk(self.edges@, p) && p[0] == 0 && p.last() == x;
        self.lemma_closed_walk(vis, p, p.len() - 1);
    }

    proof fn lemma_closed_walk(&self, vis: Seq<bool>, p: Seq<usize>, k: int)
        requires
            self.well_formed(),
            vis.len() == self.n,
            self.n > 0,
            vis[0],
            forall|a: usize, b: usize|
                a < self.n && vis[a as int] && #[trigger] self.adjacent(a, b) ==> vis[b as int],
            is_walk(self.edges@, p),
            p[0] == 0,
            0 <= k < p.len(),
        ensures
            p[k] < self.n,
            vis[p[k] as int],
        decreases k,
    {
        if k > 0 {
            self.lemma_closed_walk(vis, p, k - 1);
            assert(walk_step(self.edges@, p, k - 1));
            self.lemma_adjacent_iff_joined(p[k - 1], p[k]);
        }
    }

    /// Entry of the oriented incidence matrix: +1 if `x` is the tail of edge `e`,
    /// -1 if it is the head, 0 otherwise.
    pub open spec fn incidence(&self, x: usize, e: int) -> int {
        if self.edges@[e].0 == x {
            1
        } else if self.edges@[e].1 == x {
            -1
        } else {
            0
        }
    }

    /// Sum over the first `k` edges of incidence(i, e) * incidence(j, e).
    pub open spec fn incidence_product(&self, i: usize, j: usize, k: int) -> int
        decreases k,
    {
        if k <= 0 {
            0
        } else {
            self.incidence_product(i, j, k - 1) + self.incidence(i, k - 1) * self.incidence(j, k - 1)
        }
    }

    /// Entry (i, j) of the graph Laplacian D - A.
    pub open spec fn laplacian_entry(&self, i: usize, j: usize) -> int {
        if i == j {
            self.adj@[i as int]@.len() as int
        } else if self.adjacent(i, j) {
            -1
        } else {
            0
        }
    }

    /// Incidence matrix B (n × m) with orientation.
    /// B[v][e] = +1 if v is tail, -1 if v is head, 0 otherwise.
    pub fn incidence_matrix(&self) -> (b: Vec<Vec<i64>>)
        requires
            self.well_formed(),
        ensures
            b@.len() == self.n,
            forall|x: int| 0 <= x < self.n ==> (#[trigger] b@[x])@.len() == self.edges@.len(),
            forall|x: int, e: int|
                0 <= x < self.n && 0 <= e < self.edges@.len() ==> #[trigger] b@[x]@[e]
                    == self.incidence(x as usize, e),
    {
        let m = self.edges.len();
        let mut b: Vec<Vec<i64>> = Vec::new();
        let mut r: usize = 0;
        while r < self.n
            invariant
                r <= self.n,
                m == self.edges@.len(),
                b@.len() == r,
                forall|x: int| 0 <= x < r ==> (#[trigger] b@[x])@.len() == m,
                forall|x: int, e: int| 0 <= x < r && 0 <= e < m ==> #[trigger] b@[x]@[e] == 0,
            decreases self.n - r,
        {
            let mut row: Vec<i64> = Vec::new();
            let mut c: usize = 0;
            while c < m
                invariant
                    c <= m,
                    row@.len() == c,
                    forall|e: int| 0 <= e < c ==> #[trigger] row@[e] == 0,
                decreases m - c,
            {
                row.push(0);
                c += 1;
            }
            b.push(row);
            r += 1;
        }
        let mut ei: usize = 0;
        while ei < m
            invariant
                self.well_formed(),
                ei <= m,
                m == self.edges@.len(),
                b@.len() == self.n,
                forall|x: int| 0 <= x < self.n ==> (#[trigger] b@[x])@.len() == m,
                forall|x: int, e: int|
                    0 <= x < self.n && 0 <= e < m ==> #[trigger] b@[x]@[e] == if e < ei {
                        self.incidence(x as usize, e)
                    } else {
                        0
                    },
            decreases m - ei,
        {
            let (u, v) = self.edges[ei];
            proof {
                assert(self.adjacent(u, v));
            }
            let ghost b0 = b@;
            b[u].set(ei, 1);
            b[v].set(ei, -1);
            assert forall|x: int, e: int|
                0 <= x < self.n && 0 <= e < m implies #[trigger] b@[x]@[e] == if e < ei + 1 {
                    self.incidence(x as usize, e)
                } else {
                    0
                } by {
                assert(b0[x]@[e] == if e < ei {
                    self.incidence(x as usize, e)
                } else {
                    0
                });
            }
            ei += 1;
        }
        b
    }

    /// Standard graph Laplacian L = B Bᵀ = D - A.
    pub fn laplacian(&self) -> (l: Vec<Vec<i64>>)
        requires
            self.well_formed(),
            self.edges@.len() < i64::MAX,
        ensures
            l@.len() == self.n,
            forall|i: int| 0 <= i < self.n ==> (#[trigger] l@[i])@.len() == self.n,
            forall|i: int, j: int|
                0 <= i < self.n && 0 <= j < self.n ==> #[trigger] l@[i]@[j]
                    == self.laplacian_entry(i as usize, j as usize),
    {
        let b = self.incidence_matrix();
        let n = self.n;
        let m = self.edges.len();
        let mut l: Vec<Vec<i64>> = Vec::new();
        let mut i: usize = 0;
        while i < n
            invariant
                self.well_formed(),
                n == self.n,
                m == self.edges@.len(),
                m < i64::MAX,
                i <= n,
                b@.len() == n,
                forall|x: int| 0 <= x < n ==> (#[trigger] b@[x])@.len() == m,
                forall|x: int, e: int|
                    0 <= x < n && 0 <= e < m ==> #[trigger] b@[x]@[e] == self.incidence(x as usize, e),
                l@.len() == i,
                forall|r: int| 0 <= r < i ==> (#[trigger] l@[r])@.len() == n,
                forall|r: int, c: int|
                    0 <= r < i && 0 <= c < n ==> #[trigger] l@[r]@[c]
                        == self.laplacian_entry(r as usize, c as usize),
            decreases n - i,
        {
            let mut row: Vec<i64> = Vec::new();
            let mut j: usize = 0;
            while j < n
                invariant
                    self.well_formed(),
                    n == self.n,
                    m == self.edges@.len(),
                    m < i64::MAX,
                    i < n,
                    j <= n,
                    b@.len() == n,
                    forall|x: int| 0 <= x < n ==> (#[trigger] b@[x])@.len() == m,
                    forall|x: int, e: int|
                        0 <= x < n && 0 <= e < m ==> #[trigger] b@[x]@[e] == self.incidence(
                            x as usize,
                            e,
                        ),
                    row@.len() == j,
                    forall|c: int| 0 <= c < j ==> #[trigger] row@[c]
                        == self.laplacian_entry(i, c as usize),
                decreases n - j,
            {
                let mut acc: i64 = 0;
                let mut e: usize = 0;
                while e < m
                    invariant
                        self.well_formed(),
                        n == self.n,
                        m == self.edges@.len(),
                        m < i64::MAX,
                        i < n,
                        j < n,
                        e <= m,
                        b@.len() == n,
                        forall|x: int| 0 <= x < n ==> (#[trigger] b@[x])@.len() == m,
                        forall|x: int, k: int|
                            0 <= x < n && 0 <= k < m ==> #[trigger] b@[x]@[k] == self.incidence(
                                x as usize,
                                k,
                            ),
                        acc == self.incidence_product(i, j, e as int),
                        -(e as int) <= acc <= e,
                    decreases m - e,
                {
                    let p = b[i][e] * b[j][e];
                    proof {
                        assert(b@[i as int]@[e as int] == self.incidence(i, e as int));
                        assert(b@[j as int]@[e as int] == self.incidence(j, e as int));
                    }
                    acc = acc + p;
                    e += 1;
                }
                proof {
                    self.lemma_laplacian_entry(i, j);
                }
                row.push(acc);
                j += 1;
            }
            l.push(row);
            i += 1;
        }
        l
    }

    /// Summing incidence products over all edges gives the Laplacian entry D - A.
    pub proof fn lemma_laplacian_entry(&self, i: usize, j: usize)
        requires
            self.well_formed(),
            i < self.n,
            j < self.n,
        ensures
            self.incidence_product(i, j, self.edges@.len() as int) == self.laplacian_entry(i, j),
    {
        let m = self.edges@.len() as int;
        if i == j {
            self.lemma_diag_product(i, m);
            assert(Set::new(|w: usize| self.edges@.take(m).contains(ordered_pair(i, w)))
                =~= self.adj@[i as int]@) by {
                assert(self.edges@.take(m) =~= self.edges@);
                assert forall|w: usize|
                    #[trigger] self.adj@[i as int]@.contains(w) implies self.edges@.contains(
                    ordered_pair(i, w)) by {
                    assert(self.adjacent(i, w));
                    assert(self.adjacent(w, i));
                }
                assert forall|w: usize|
                    self.edges@.contains(ordered_pair(i, w)) implies #[trigger] self.adj@[
                    i as int]@.contains(w) by {
                    let k = choose|k: int| 0 <= k < m && self.edges@[k] == ordered_pair(i, w);
                    assert(self.edges@[k] == ordered_pair(i, w));
                    assert(self.adjacent(ordered_pair(i, w).0, ordered_pair(i, w).1));
                }
            }
        } else {
            self.lemma_off_diag_product(i, j, m);
            assert(self.edges@.take(m) =~= self.edges@);
            if self.adjacent(i, j) {
                assert(self.adjacent(j, i));
                assert(self.edges@.contains(ordered_pair(i, j)));
            }
            if self.edges@.contains(ordered_pair(i, j)) {
                let k = choose|k: int| 0 <= k < m && self.edges@[k] == ordered_pair(i, j);
                assert(self.edges@[k] == ordered_pair(i, j));
                assert(self.adjacent(ordered_pair(i, j).0, ordered_pair(i, j).1));
                assert(self.adjacent(i, j));
            }
        }
    }

    proof fn lemma_off_diag_product(&self, i: usize, j: usize, k: int)
        requires
            self.well_formed(),
            i != j,
            0 <= k <= self.edges@.len(),
        ensures
            self.incidence_product(i, j, k) == if self.edges@.take(k).contains(ordered_pair(i, j)) {
                -1int
            } else {
                0
            },
        decreases k,
    {
        if k > 0 {
            self.lemma_off_diag_product(i, j, k - 1);
            let e = self.edges@[k - 1];
            assert(e.0 < e.1);
            assert(self.edges@.take(k) =~= self.edges@.take(k - 1).push(e));
            let pi = self.incidence(i, k - 1);
            let pj = self.incidence(j, k - 1);
            if e == ordered_pair(i, j) {
                assert(self.edges@.take(k)[k - 1] == e);
                assert(pi * pj == -1) by {
                    if i < j {
                        assert(pi == 1 && pj == -1);
                    } else {
                        assert(pi == -1 && pj == 1);
                    }
                }
            } else {
                assert(pi * pj == 0) by {
                    if pi != 0 && pj != 0 {
                        assert(e == ordered_pair(i, j));
                    }
                }
                assert(self.edges@.take(k).contains(ordered_pair(i, j)) == self.edges@.take(
                    k - 1,
                ).contains(ordered_pair(i, j))) by {
                    if self.edges@.take(k).contains(ordered_pair(i, j)) {
                        let t = choose|t: int|
                            0 <= t < k && #[trigger] self.edges@.take(k)[t] == ordered_pair(i, j);
                        assert(self.edges@.take(k - 1)[t] == ordered_pair(i, j));
                    }
                }
            }
            if e == ordered_pair(i, j) {
                if self.edges@.take(k - 1).contains(e) {
                    let t = choose|t: int| 0 <= t < k - 1 && #[trigger] self.edges@.take(k - 1)[t] == e;
                    assert(self.edges@[t] == self.edges@[k - 1]);
                }
            }
        }
    }

    proof fn lemma_diag_product(&self, i: usize, k: int)
        requires
            self.well_formed(),
            0 <= k <= self.edges@.len(),
        ensures
            Set::new(|w: usize| self.edges@.take(k).contains(ordered_pair(i, w))).finite(),
            self.incidence_product(i, i, k) == Set::new(
                |w: usize| self.edges@.take(k).contains(ordered_pair(i, w)),
            ).len(),
        decreases k,
    {
        let t = Set::new(|w: usize| self.edges@.take(k).contains(ordered_pair(i, w)));
        if k == 0 {
            assert(t =~= Set::<usize>::empty());
        } else {
            self.lemma_diag_product(i, k - 1);
            let t0 = Set::new(|w: usize| self.edges@.take(k - 1).contains(ordered_pair(i, w)));
            let e = self.edges@[k - 1];
            assert(self.edges@.take(k) =~= self.edges@.take(k - 1).push(e));
            assert(e.0 < e.1);
            let pi = self.incidence(i, k - 1);
            if e.0 == i || e.1 == i {
                let w = if e.0 == i { e.1 } else { e.0 };
                assert(pi * pi == 1);
                assert(ordered_pair(i, w) == e);
                assert forall|x: usize| #[trigger] t.contains(x) <==> t0.insert(w).contains(x) by {
                    if x == w {
                        assert(self.edges@.take(k)[k - 1] == e);
                    } else {
                        assert(ordered_pair(i, x) != e);
                        if t.contains(x) {
                            let s = choose|s: int|
                                0 <= s < k && #[trigger] self.edges@.take(k)[s] == ordered_pair(i, x);
                            assert(self.edges@.take(k - 1)[s] == ordered_pair(i, x));
                        }
                        if t0.contains(x) {
                            let s = choose|s: int|
                                0 <= s < k - 1 && #[trigger] self.edges@.take(k - 1)[s] == ordered_pair(i, x);
                            assert(self.edges@.take(k)[s] == ordered_pair(i, x));
                        }
                    }
                }
                assert(t =~= t0.insert(w));
                if t0.contains(w) {
                    let s = choose|s: int| 0 <= s < k - 1 && #[trigger] self.edges@.take(k - 1)[s] == e;
                    assert(self.edges@[s] == self.edges@[k - 1]);
                }
            } else {
                assert(pi * pi == 0);
                assert forall|w: usize| #[trigger] t.contains(w) <==> t0.contains(w) by {
                    assert(ordered_pair(i, w) != e);
                    if t.contains(w) {
                        let s = choose|s: int|
                            0 <= s < k && #[trigger] self.edges@.take(k)[s] == ordered_pair(i, w);
                        assert(self.edges@.take(k - 1)[s] == ordered_pair(i, w));
                    }
                    if t0.contains(w) {
                        let s = choose|s: int|
                            0 <= s < k - 1 && #[trigger] self.edges@.take(k - 1)[s] == ordered_pair(i, w);
                        assert(self.edges@.take(k)[s] == ordered_pair(i, w));
                    }
                }
                assert(t =~= t0);
            }
        }
    }

    /// Number of edges.
    pub fn num_edges(&self) -> (m: usize)
        ensures
            m == self.edges@.len(),
    {
        self.edges.len()
    }

    /// Degree of vertex v.
    pub fn degree(&self, v: usize) -> (d: usize)
        requires
            v < self.adj@.len(),
        ensures
            d == self.adj@[v as int]@.len(),
    {
        self.adj[v].len()
    }

    /// Oriented edge endpoints: (tail, head) of the edge with index `ei`.
    pub fn edge_endpoints(&self, ei: usize) -> (e: (usize, usize))
        requires
            ei < self.edges@.len(),
        ensures
            e == self.edges@[ei as int],
    {
        self.edges[ei]
    }
}

} // verus!
