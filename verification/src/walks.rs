//! Walks, cycles and reachability in a `DiGraph`, as the contracts of the
//! analyses speak of them.

use crate::graph::DiGraph;
use vstd::prelude::*;

verus! {

/// A non-empty sequence of nodes in which every node has an edge to the next.
pub open spec fn is_walk(g: &DiGraph, w: Seq<usize>) -> bool {
    &&& w.len() > 0
    &&& forall|i: int| 0 <= i < w.len() ==> g.has_node(#[trigger] w[i])
    &&& forall|i: int| 0 <= i < w.len() - 1 ==> g.has_edge(#[trigger] w[i], w[i + 1])
}

/// A walk whose last node has an edge back to its first: the closing edge is
/// implied, the first node is not written twice.
pub open spec fn is_closed_walk(g: &DiGraph, c: Seq<usize>) -> bool {
    is_walk(g, c) && g.has_edge(c.last(), c[0])
}

/// A closed walk that visits no node twice.
pub open spec fn is_elementary_cycle(g: &DiGraph, c: Seq<usize>) -> bool {
    is_closed_walk(g, c) && c.no_duplicates()
}

/// An elementary cycle written from its smallest node: the form in which
/// each cycle is listed.
pub open spec fn is_anchored_cycle(g: &DiGraph, c: Seq<usize>) -> bool {
    is_elementary_cycle(g, c) && forall|i: int| 0 <= i < c.len() ==> c[0] <= #[trigger] c[i]
}

/// Whether some walk leads from `u` to `v`; every node reaches itself.
pub open spec fn reaches(g: &DiGraph, u: usize, v: usize) -> bool {
    exists|w: Seq<usize>| is_walk(g, w) && w[0] == u && #[trigger] w.last() == v
}

/// Whether `u` and `v` lie on a common closed walk or are the same node.
pub open spec fn mutually_reachable(g: &DiGraph, u: usize, v: usize) -> bool {
    reaches(g, u, v) && reaches(g, v, u)
}

/// Whether the graph has no closed walk, a self-loop counting as one.
pub open spec fn is_acyclic(g: &DiGraph) -> bool {
    forall|c: Seq<usize>| !is_closed_walk(g, c)
}

/// A node reaches itself by the walk that holds it alone.
pub proof fn lemma_reaches_refl(g: &DiGraph, u: usize)
    requires
        g.has_node(u),
    ensures
        reaches(g, u, u),
{
    let w = seq![u];
    assert(is_walk(g, w));
    assert(w[0] == u && w.last() == u);
}

/// An edge is a walk of two nodes.
pub proof fn lemma_reaches_edge(g: &DiGraph, u: usize, v: usize)
    requires
        g.has_edge(u, v),
    ensures
        reaches(g, u, v),
{
    let w = seq![u, v];
    assert(is_walk(g, w));
    assert(w[0] == u && w.last() == v);
}

/// Two walks that meet end to start join into one.
pub proof fn lemma_walk_join(g: &DiGraph, a: Seq<usize>, b: Seq<usize>)
    requires
        is_walk(g, a),
        is_walk(g, b),
        a.last() == b[0],
    ensures
        is_walk(g, a + b.subrange(1, b.len() as int)),
        (a + b.subrange(1, b.len() as int))[0] == a[0],
        (a + b.subrange(1, b.len() as int)).last() == b.last(),
{
    let t = b.subrange(1, b.len() as int);
    let w = a + t;
    assert forall|i: int| 0 <= i < w.len() implies g.has_node(#[trigger] w[i]) by {
        if i >= a.len() {
            assert(w[i] == b[i - a.len() + 1]);
        }
    }
    assert forall|i: int| 0 <= i < w.len() - 1 implies g.has_edge(#[trigger] w[i], w[i + 1]) by {
        if i + 1 < a.len() {
            assert(g.has_edge(a[i], a[i + 1]));
        } else if i + 1 == a.len() {
            assert(w[i] == b[0]);
            assert(w[i + 1] == b[1]);
            assert(g.has_edge(b[0int], b[0int + 1]));
        } else {
            let k = i - a.len() + 1;
            assert(w[i] == b[k]);
            assert(w[i + 1] == b[k + 1]);
            assert(g.has_edge(b[k], b[k + 1]));
        }
    }
}

/// Reachability is transitive.
pub proof fn lemma_reaches_trans(g: &DiGraph, u: usize, v: usize, x: usize)
    requires
        reaches(g, u, v),
        reaches(g, v, x),
    ensures
        reaches(g, u, x),
{
    let a = choose|w: Seq<usize>| is_walk(g, w) && w[0] == u && #[trigger] w.last() == v;
    let b = choose|w: Seq<usize>| is_walk(g, w) && w[0] == v && #[trigger] w.last() == x;
    lemma_walk_join(g, a, b);
    let w = a + b.subrange(1, b.len() as int);
    assert(is_walk(g, w) && w[0] == u && w.last() == x);
}

/// A walk extended by an edge from its last node is a walk.
pub proof fn lemma_walk_push(g: &DiGraph, w: Seq<usize>, v: usize)
    requires
        is_walk(g, w),
        g.has_edge(w.last(), v),
    ensures
        is_walk(g, w.push(v)),
{
    let e = w.push(v);
    assert forall|i: int| 0 <= i < e.len() - 1 implies g.has_edge(#[trigger] e[i], e[i + 1]) by {
        if i + 1 < w.len() {
            assert(g.has_edge(w[i], w[i + 1]));
        }
    }
}

/// Every node of a walk is reached from its first node and reaches its last.
pub proof fn lemma_walk_inner(g: &DiGraph, w: Seq<usize>, i: int)
    requires
        is_walk(g, w),
        0 <= i < w.len(),
    ensures
        reaches(g, w[0], w[i]),
        reaches(g, w[i], w.last()),
{
    let a = w.subrange(0, i + 1);
    assert forall|k: int| 0 <= k < a.len() - 1 implies g.has_edge(#[trigger] a[k], a[k + 1]) by {
        assert(g.has_edge(w[k], w[k + 1]));
    }
    assert(is_walk(g, a) && a[0] == w[0] && a.last() == w[i]);
    let b = w.subrange(i, w.len() as int);
    assert forall|k: int| 0 <= k < b.len() - 1 implies g.has_edge(#[trigger] b[k], b[k + 1]) by {
        assert(g.has_edge(w[i + k], w[i + k + 1]));
    }
    assert(is_walk(g, b) && b[0] == w[i] && b.last() == w.last());
}

} // verus!
