//! Walks along an edge list, and the connectivity relation they induce.

use vstd::prelude::*;

verus! {

/// The edge list `es` joins `a` and `b` (edges are undirected).
pub open spec fn joined(es: Seq<(usize, usize)>, a: usize, b: usize) -> bool {
    es.contains((a, b)) || es.contains((b, a))
}

/// Step `i` of the vertex sequence `p` follows an edge of `es`.
pub open spec fn walk_step(es: Seq<(usize, usize)>, p: Seq<usize>, i: int) -> bool {
    joined(es, p[i], p[i + 1])
}

/// `p` is a nonempty walk along the edges of `es`.
pub open spec fn is_walk(es: Seq<(usize, usize)>, p: Seq<usize>) -> bool {
    &&& p.len() > 0
    &&& forall|i: int| 0 <= i < p.len() - 1 ==> #[trigger] walk_step(es, p, i)
}

/// Some walk along `es` starts at `x` and ends at `y`.
pub open spec fn linked(es: Seq<(usize, usize)>, x: usize, y: usize) -> bool {
    exists|p: Seq<usize>| #[trigger] is_walk(es, p) && p[0] == x && p.last() == y
}

/// Every vertex is linked to itself (by the walk of length zero).
pub proof fn lemma_linked_refl(es: Seq<(usize, usize)>, x: usize)
    ensures
        linked(es, x, x),
{
    let p = seq![x];
    assert(is_walk(es, p));
}

/// A link extends by one edge.
pub proof fn lemma_linked_step(es: Seq<(usize, usize)>, x: usize, y: usize, z: usize)
    requires
        linked(es, x, y),
        joined(es, y, z),
    ensures
        linked(es, x, z),
{
    let p = choose|p: Seq<usize>| #[trigger] is_walk(es, p) && p[0] == x && p.last() == y;
    let q = p.push(z);
    assert forall|i: int| 0 <= i < q.len() - 1 implies #[trigger] walk_step(es, q, i) by {
        if i < p.len() - 1 {
            assert(walk_step(es, p, i));
        }
    }
    assert(is_walk(es, q));
}

/// Links are symmetric (walk backwards).
pub proof fn lemma_linked_symm(es: Seq<(usize, usize)>, x: usize, y: usize)
    requires
        linked(es, x, y),
    ensures
        linked(es, y, x),
{
    let p = choose|p: Seq<usize>| #[trigger] is_walk(es, p) && p[0] == x && p.last() == y;
    let q = p.reverse();
    assert forall|i: int| 0 <= i < q.len() - 1 implies #[trigger] walk_step(es, q, i) by {
        let j = p.len() - 2 - i;
        assert(walk_step(es, p, j));
        assert(q[i] == p[j + 1]);
        assert(q[i + 1] == p[j]);
    }
    assert(is_walk(es, q));
}

/// Links are transitive (concatenate the walks).
pub proof fn lemma_linked_trans(es: Seq<(usize, usize)>, x: usize, y: usize, z: usize)
    requires
        linked(es, x, y),
        linked(es, y, z),
    ensures
        linked(es, x, z),
{
    let p = choose|p: Seq<usize>| #[trigger] is_walk(es, p) && p[0] == x && p.last() == y;
    let q = choose|q: Seq<usize>| #[trigger] is_walk(es, q) && q[0] == y && q.last() == z;
    let r = p + q.subrange(1, q.len() as int);
    assert forall|i: int| 0 <= i < r.len() - 1 implies #[trigger] walk_step(es, r, i) by {
        if i < p.len() - 1 {
            assert(walk_step(es, p, i));
        } else {
            let j = i - p.len() + 1;
            assert(walk_step(es, q, j));
            assert(r[i] == q[j]);
            assert(r[i + 1] == q[j + 1]);
        }
    }
    if q.len() == 1 {
        assert(r.last() == p.last());
    } else {
        assert(r.last() == q.last());
    }
    assert(is_walk(es, r));
}

/// Every edge of `es` is an edge of `es2`, so every walk along `es` is one along `es2`.
pub proof fn lemma_linked_mono(
    es: Seq<(usize, usize)>,
    es2: Seq<(usize, usize)>,
    x: usize,
    y: usize,
)
    requires
        linked(es, x, y),
        forall|e: (usize, usize)| es.contains(e) ==> es2.contains(e),
    ensures
        linked(es2, x, y),
{
    let p = choose|p: Seq<usize>| #[trigger] is_walk(es, p) && p[0] == x && p.last() == y;
    assert forall|i: int| 0 <= i < p.len() - 1 implies #[trigger] walk_step(es2, p, i) by {
        assert(walk_step(es, p, i));
    }
    assert(is_walk(es2, p));
}

/// Adding an edge keeps every existing link.
pub proof fn lemma_linked_push_mono(es: Seq<(usize, usize)>, e: (usize, usize), x: usize, y: usize)
    requires
        linked(es, x, y),
    ensures
        linked(es.push(e), x, y),
{
    assert forall|f: (usize, usize)| es.contains(f) implies es.push(e).contains(f) by {
        let i = choose|i: int| 0 <= i < es.len() && es[i] == f;
        assert(es.push(e)[i] == f);
    }
    lemma_linked_mono(es, es.push(e), x, y);
}

/// The last edge of `es.push((u, v))` links `u` and `v`.
pub proof fn lemma_linked_pushed_edge(es: Seq<(usize, usize)>, u: usize, v: usize)
    ensures
        linked(es.push((u, v)), u, v),
{
    let es2 = es.push((u, v));
    assert(es2[es.len() as int] == (u, v));
    lemma_linked_refl(es2, u);
    lemma_linked_step(es2, u, u, v);
}

/// Without edges, a vertex is linked only to itself.
pub proof fn lemma_linked_empty(x: usize, y: usize)
    requires
        linked(Seq::<(usize, usize)>::empty(), x, y),
    ensures
        x == y,
{
    let es = Seq::<(usize, usize)>::empty();
    let p = choose|p: Seq<usize>| #[trigger] is_walk(es, p) && p[0] == x && p.last() == y;
    if p.len() > 1 {
        assert(walk_step(es, p, 0));
    }
}

/// Adding the edge `(u, v)` links `x` and `y` only if they were linked already,
/// or one is linked to `u` and the other to `v`.
pub proof fn lemma_linked_push(
    es: Seq<(usize, usize)>,
    u: usize,
    v: usize,
    x: usize,
    y: usize,
)
    requires
        linked(es.push((u, v)), x, y),
    ensures
        linked(es, x, y) || (linked(es, x, u) && linked(es, v, y)) || (linked(es, x, v)
            && linked(es, u, y)),
{
    let es2 = es.push((u, v));
    let p = choose|p: Seq<usize>| #[trigger] is_walk(es2, p) && p[0] == x && p.last() == y;
    lemma_walk_push(es, u, v, p, p.len() - 1);
}

proof fn lemma_walk_push(es: Seq<(usize, usize)>, u: usize, v: usize, p: Seq<usize>, k: int)
    requires
        is_walk(es.push((u, v)), p),
        0 <= k < p.len(),
    ensures
        linked(es, p[0], p[k]) || (linked(es, p[0], u) && linked(es, v, p[k])) || (linked(
            es,
            p[0],
            v,
        ) && linked(es, u, p[k])),
    decreases k,
{
    let es2 = es.push((u, v));
    let x = p[0];
    if k == 0 {
        lemma_linked_refl(es, x);
    } else {
        lemma_walk_push(es, u, v, p, k - 1);
        let a = p[k - 1];
        let b = p[k];
        assert(walk_step(es2, p, k - 1));
        if joined(es, a, b) {
            if linked(es, x, a) {
                lemma_linked_step(es, x, a, b);
            } else if linked(es, x, u) && linked(es, v, a) {
                lemma_linked_step(es, v, a, b);
            } else {
                lemma_linked_step(es, u, a, b);
            }
        } else {
            // The step uses the new edge.
            if es.contains((a, b)) {
            } else if es.contains((b, a)) {
            } else {
                assert(es2.contains((a, b)) || es2.contains((b, a)));
                if es2.contains((a, b)) {
                    let j = choose|j: int| 0 <= j < es2.len() && es2[j] == (a, b);
                    if j < es.len() {
                        assert(es.contains((a, b)));
                    }
                } else {
                    let j = choose|j: int| 0 <= j < es2.len() && es2[j] == (b, a);
                    if j < es.len() {
                        assert(es.contains((b, a)));
                    }
                }
            }
            // Now {a, b} == {u, v}.
            lemma_linked_refl(es, u);
            lemma_linked_refl(es, v);
            if a == u && b == v {
                if linked(es, x, u) {
                } else if linked(es, x, u) && linked(es, v, a) {
                } else if linked(es, x, v) && linked(es, u, a) {
                    lemma_linked_trans(es, x, v, v);
                }
            } else {
                assert(a == v && b == u);
            }
        }
    }
}

} // verus!
