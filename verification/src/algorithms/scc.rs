//! Strongly connected components: the classes of nodes that reach each
//! other.

use crate::algorithms::scc_traversal::components_of;
use crate::graph::DiGraph;
use crate::walks::{is_acyclic, is_closed_walk, is_walk, lemma_walk_join, mutually_reachable};
use vstd::prelude::*;

verus! {

/// The components as sequences of nodes.
pub open spec fn part_views(components: Seq<Vec<usize>>) -> Seq<Seq<usize>> {
    Seq::new(components.len(), |k: int| components[k]@)
}

/// The strongly connected components of a graph.
#[derive(Clone)]
pub struct SCCResult {
    /// The components, each a list of its nodes.
    pub components: Vec<Vec<usize>>,
    /// Whether some component has more than one node.
    pub has_cycles: bool,
    /// The number of components with more than one node.
    pub cycle_count: usize,
}

impl SCCResult {
    /// The components as sequences of nodes.
    pub open spec fn parts(&self) -> Seq<Seq<usize>> {
        part_views(self.components@)
    }
}

/// Whether `parts` holds every node of `g` exactly once and nothing else,
/// and no part is empty.
pub open spec fn is_partition(g: &DiGraph, parts: Seq<Seq<usize>>) -> bool {
    &&& forall|k: int| 0 <= k < parts.len() ==> (#[trigger] parts[k]).len() > 0
    &&& forall|k: int, j: int|
        0 <= k < parts.len() && 0 <= j < parts[k].len() ==> g.has_node(#[trigger] parts[k][j])
    &&& forall|v: usize|
        g.has_node(v) ==> exists|k: int| 0 <= k < parts.len() && (#[trigger] parts[k]).contains(v)
    &&& forall|k1: int, j1: int, k2: int, j2: int|
        0 <= k1 < parts.len() && 0 <= j1 < parts[k1].len() && 0 <= k2 < parts.len() && 0 <= j2
            < parts[k2].len() && #[trigger] parts[k1][j1] == #[trigger] parts[k2][j2] ==> k1 == k2
            && j1 == j2
}

/// Whether each part holds, with any of its nodes, exactly the nodes that
/// reach it and are reached from it.
pub open spec fn are_classes(g: &DiGraph, parts: Seq<Seq<usize>>) -> bool {
    forall|k: int, j: int, b: usize|
        0 <= k < parts.len() && 0 <= j < parts[k].len() && g.has_node(b) ==> (mutually_reachable(
            g,
            #[trigger] parts[k][j],
            b,
        ) <==> #[trigger] parts[k].contains(b))
}

/// Whether `b` lies in one of the parts up to position `k`.
pub open spec fn placed_by(parts: Seq<Seq<usize>>, k: int, b: usize) -> bool {
    exists|k2: int| 0 <= k2 <= k && k2 < parts.len() && (#[trigger] parts[k2]).contains(b)
}

/// Whether every edge that leaves a part ends in the same part or in one
/// before it: a part comes after all parts that it reaches.
pub open spec fn callees_first(g: &DiGraph, parts: Seq<Seq<usize>>) -> bool {
    forall|k: int, j: int, i: int|
        0 <= k < parts.len() && 0 <= j < parts[k].len() && 0 <= i < g.succs(parts[k][j]).len()
            ==> placed_by(parts, k, #[trigger] g.succs(parts[k][j])[i])
}

/// The number of parts with more than one node.
pub open spec fn count_large(parts: Seq<Seq<usize>>) -> nat
    decreases parts.len(),
{
    if parts.len() == 0 {
        0
    } else {
        count_large(parts.drop_last()) + if parts.last().len() > 1 {
            1nat
        } else {
            0nat
        }
    }
}

/// Whether two different nodes of `g` reach each other.
pub open spec fn has_mutual_pair(g: &DiGraph) -> bool {
    exists|u: usize, v: usize|
        g.has_node(u) && g.has_node(v) && u != v && #[trigger] mutually_reachable(g, u, v)
}

/// Parts with more than one node are counted exactly when there is one.
pub proof fn lemma_count_large(parts: Seq<Seq<usize>>)
    ensures
        count_large(parts) <= parts.len(),
        count_large(parts) > 0 <==> exists|k: int| 0 <= k < parts.len() && (#[trigger] parts[k]).len() > 1,
    decreases parts.len(),
{
    if parts.len() > 0 {
        let front = parts.drop_last();
        lemma_count_large(front);
        if count_large(front) > 0 {
            let k = choose|k: int| 0 <= k < front.len() && (#[trigger] front[k]).len() > 1;
            assert(parts[k].len() > 1);
        }
        if exists|k: int| 0 <= k < parts.len() && (#[trigger] parts[k]).len() > 1 {
            let k = choose|k: int| 0 <= k < parts.len() && (#[trigger] parts[k]).len() > 1;
            if k < front.len() {
                assert(front[k].len() > 1);
            }
        }
    }
}

/// Where the parts are the classes of mutual reachability, one of them has
/// more than one node exactly when two different nodes reach each other.
pub proof fn lemma_large_class(g: &DiGraph, parts: Seq<Seq<usize>>)
    requires
        is_partition(g, parts),
        are_classes(g, parts),
    ensures
        count_large(parts) > 0 <==> has_mutual_pair(g),
{
    lemma_count_large(parts);
    if count_large(parts) > 0 {
        let k = choose|k: int| 0 <= k < parts.len() && (#[trigger] parts[k]).len() > 1;
        let a = parts[k][0];
        let b = parts[k][1];
        assert(parts[k].contains(b));
        assert(mutually_reachable(g, parts[k][0], b));
        assert(a != b);
    }
    if has_mutual_pair(g) {
        let (u, v) = choose|u: usize, v: usize|
            g.has_node(u) && g.has_node(v) && u != v && #[trigger] mutually_reachable(g, u, v);
        let k = choose|k: int| 0 <= k < parts.len() && (#[trigger] parts[k]).contains(u);
        let j = choose|j: int| 0 <= j < parts[k].len() && parts[k][j] == u;
        assert(mutually_reachable(g, parts[k][j], v));
        assert(parts[k].contains(v));
        let j2 = choose|j2: int| 0 <= j2 < parts[k].len() && parts[k][j2] == v;
        assert(parts[k].len() > 1);
    }
}

/// Two different nodes that reach each other lie on a closed walk: a graph
/// without closed walks has no such pair.
pub proof fn lemma_acyclic_no_pair(g: &DiGraph)
    ensures
        is_acyclic(g) ==> !has_mutual_pair(g),
{
    if has_mutual_pair(g) {
        let (u, v) = choose|u: usize, v: usize|
            g.has_node(u) && g.has_node(v) && u != v && #[trigger] mutually_reachable(g, u, v);
        let a = choose|w: Seq<usize>| is_walk(g, w) && w[0] == u && #[trigger] w.last() == v;
        let b = choose|w: Seq<usize>| is_walk(g, w) && w[0] == v && #[trigger] w.last() == u;
        lemma_walk_join(g, a, b);
        let w = a + b.subrange(1, b.len() as int);
        assert(b.len() >= 2);
        let c = w.drop_last();
        assert(c.len() >= 1);
        assert(g.has_edge(w[w.len() - 2], w[w.len() - 2 + 1]));
        assert forall|i: int| 0 <= i < c.len() - 1 implies g.has_edge(#[trigger] c[i], c[i + 1]) by {
            assert(g.has_edge(w[i], w[i + 1]));
        }
        assert(is_closed_walk(g, c));
    }
}

/// The strongly connected components of `graph`: the classes of nodes that
/// reach each other, each component after all components that its nodes
/// have edges to. A node that reaches no other node and back is a component
/// by itself, whether or not it has an edge to itself; such a component
/// does not count as a cycle.
pub fn tarjan_scc(graph: &DiGraph) -> (r: SCCResult)
    ensures
        is_partition(graph, r.parts()),
        are_classes(graph, r.parts()),
        callees_first(graph, r.parts()),
        r.cycle_count == count_large(r.parts()),
        r.has_cycles == (r.cycle_count > 0),
        r.has_cycles == has_mutual_pair(graph),
{
    proof {
        use_type_invariant(graph);
    }
    let components = components_of(graph);
    let mut cycle_count: usize = 0;
    let mut k: usize = 0;
    while k < components.len()
        invariant
            k <= components.len(),
            cycle_count <= k,
            cycle_count == count_large(part_views(components@).subrange(0, k as int)),
        decreases components.len() - k,
    {
        proof {
            let parts = part_views(components@);
            assert(parts.subrange(0, k + 1).drop_last() =~= parts.subrange(0, k as int));
            assert(parts.subrange(0, k + 1).last() == components@[k as int]@);
        }
        if components[k].len() > 1 {
            cycle_count += 1;
        }
        k += 1;
    }
    let r = SCCResult { components, has_cycles: cycle_count > 0, cycle_count };
    proof {
        assert(r.parts().subrange(0, r.parts().len() as int) =~= r.parts());
        lemma_large_class(graph, r.parts());
    }
    r
}

/// Whether two different nodes of `graph` reach each other. A self-loop
/// alone is not counted.
pub fn has_cycles(graph: &DiGraph) -> (b: bool)
    ensures
        b == has_mutual_pair(graph),
{
    tarjan_scc(graph).has_cycles
}

} // verus!
