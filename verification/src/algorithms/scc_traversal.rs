//! The traversal behind the strongly connected components.
//!
//! Every node gets a discovery index and a low-link, the smallest discovery
//! index that it is known to reach among the nodes still on the traversal
//! stack. A node whose low-link is its own index closes a component: it and
//! all that lies above it on the stack.

use crate::algorithms::scc::{are_classes, callees_first, is_partition, part_views, placed_by};
use crate::counting::{
    count_true, lemma_count_true_bound, lemma_count_true_set, lemma_work_bounded, lemma_work_pop,
    lemma_work_step, work_left,
};
use crate::graph::DiGraph;
use crate::walks::{
    is_walk, lemma_reaches_edge, lemma_reaches_refl, lemma_reaches_trans, lemma_walk_inner,
    mutually_reachable, reaches,
};
use vstd::prelude::*;

verus! {

/// The discovery index of a node that the traversal has not reached.
pub open spec fn unseen() -> usize {
    usize::MAX
}

/// The state of a traversal, as plain values. `done` exists in proofs only:
/// it marks the nodes whose successors have all been looked at.
pub struct TraversalState {
    pub index: nat,
    pub indices: Seq<usize>,
    pub lowlink: Seq<usize>,
    pub on_stack: Seq<bool>,
    pub stack: Seq<usize>,
    pub components: Seq<Seq<usize>>,
    pub done: Seq<bool>,
}

impl TraversalState {
    /// Whether the traversal has reached `v`.
    pub open spec fn seen(self, v: usize) -> bool {
        self.indices[v as int] != unseen()
    }

    /// For each node, whether the traversal has reached it.
    pub open spec fn seen_flags(self) -> Seq<bool> {
        Seq::new(self.indices.len(), |i: int| self.indices[i] != unseen())
    }

    /// Whether every array of the state has one entry for each of `n` nodes.
    pub open spec fn sized(self, n: nat) -> bool {
        &&& self.indices.len() == n
        &&& self.lowlink.len() == n
        &&& self.on_stack.len() == n
        &&& self.done.len() == n
    }

    /// Discovery indices count the nodes seen so far.
    pub open spec fn indices_ok(self) -> bool {
        &&& self.index == count_true(self.seen_flags())
        &&& forall|v: usize| v < self.indices.len() && self.seen(v) ==> #[trigger] self.indices[v as int] < self.index
    }

    /// The stack holds exactly the nodes flagged as on it, each once, in the
    /// order of their discovery, and each node on it reaches those above it.
    pub open spec fn stack_ok(self, g: &DiGraph) -> bool {
        &&& self.stack.no_duplicates()
        &&& forall|i: int|
            0 <= i < self.stack.len() ==> g.has_node(#[trigger] self.stack[i]) && self.seen(
                self.stack[i],
            ) && self.on_stack[self.stack[i] as int]
        &&& forall|v: usize|
            v < self.on_stack.len() && #[trigger] self.on_stack[v as int] ==> self.stack.contains(v)
        &&& forall|i: int, j: int|
            0 <= i < j < self.stack.len() ==> self.indices[#[trigger] self.stack[i] as int]
                < self.indices[#[trigger] self.stack[j] as int]
        &&& forall|i: int, j: int|
            0 <= i <= j < self.stack.len() ==> reaches(
                g,
                #[trigger] self.stack[i],
                #[trigger] self.stack[j],
            )
    }

    /// The closed components hold exactly the nodes that were seen and have
    /// left the stack, each once.
    pub open spec fn parts_ok(self, g: &DiGraph) -> bool {
        &&& forall|k: int| 0 <= k < self.components.len() ==> (#[trigger] self.components[k]).len() > 0
        &&& forall|k: int, j: int|
            0 <= k < self.components.len() && 0 <= j < self.components[k].len() ==> {
                let v = #[trigger] self.components[k][j];
                g.has_node(v) && self.seen(v) && !self.on_stack[v as int]
            }
        &&& forall|v: usize|
            g.has_node(v) && self.seen(v) && !self.on_stack[v as int] ==> exists|k: int|
                0 <= k < self.components.len() && (#[trigger] self.components[k]).contains(v)
        &&& forall|k1: int, j1: int, k2: int, j2: int|
            0 <= k1 < self.components.len() && 0 <= j1 < self.components[k1].len() && 0 <= k2
                < self.components.len() && 0 <= j2 < self.components[k2].len()
                && #[trigger] self.components[k1][j1] == #[trigger] self.components[k2][j2] ==> k1
                == k2 && j1 == j2
    }

    /// Each closed component is a class of mutual reachability.
    pub open spec fn classes_ok(self, g: &DiGraph) -> bool {
        forall|k: int, j: int, b: usize|
            0 <= k < self.components.len() && 0 <= j < self.components[k].len() && g.has_node(b)
                ==> (mutually_reachable(g, #[trigger] self.components[k][j], b)
                <==> #[trigger] self.components[k].contains(b))
    }

    /// A node that is done has been seen, and so have all its successors; a
    /// node that has left the stack is done.
    pub open spec fn done_ok(self, g: &DiGraph) -> bool {
        &&& forall|u: usize| g.has_node(u) && #[trigger] self.done[u as int] ==> self.seen(u)
        &&& forall|u: usize, j: int|
            g.has_node(u) && self.done[u as int] && 0 <= j < g.succs(u).len() ==> self.seen(
                #[trigger] g.succs(u)[j],
            )
        &&& forall|u: usize|
            g.has_node(u) && self.seen(u) && !#[trigger] self.on_stack[u as int]
                ==> self.done[u as int]
    }

    /// The invariant of the traversal between two of its steps.
    #[verifier::opaque]
    pub open spec fn inv(self, g: &DiGraph) -> bool {
        &&& self.sized(g.spec_len())
        &&& self.indices_ok()
        &&& self.stack_ok(g)
        &&& self.parts_ok(g)
        &&& self.classes_ok(g)
        &&& callees_first(g, self.components)
        &&& self.done_ok(g)
    }

    /// The state after the unseen node `v` has been given the next index and
    /// put on the stack.
    pub open spec fn visit(self, v: usize) -> TraversalState {
        TraversalState {
            index: self.index + 1,
            indices: self.indices.update(v as int, self.index as usize),
            lowlink: self.lowlink.update(v as int, self.index as usize),
            on_stack: self.on_stack.update(v as int, true),
            stack: self.stack.push(v),
            ..self
        }
    }

    /// The state after all successors of `v` have been looked at.
    pub open spec fn finish(self, v: usize) -> TraversalState {
        TraversalState { done: self.done.update(v as int, true), ..self }
    }

    /// Whether `next` is this state after the stack from position `at` up
    /// has been closed into a component, top first.
    pub open spec fn closes_to(self, at: int, next: TraversalState) -> bool {
        let part = self.stack.subrange(at, self.stack.len() as int);
        &&& next.index == self.index
        &&& next.indices == self.indices
        &&& next.lowlink == self.lowlink
        &&& next.done == self.done
        &&& next.stack == self.stack.subrange(0, at)
        &&& next.components == self.components.push(part.reverse())
        &&& next.on_stack.len() == self.on_stack.len()
        &&& forall|u: usize|
            u < self.on_stack.len() ==> #[trigger] next.on_stack[u as int] == (self.on_stack[u as int]
                && !part.contains(u))
    }

    /// No node on the stack from position `from` up has an edge to a node
    /// that is on the stack, was discovered before `v`, and has a discovery
    /// index below the low-link of `v`.
    pub open spec fn no_lower_edges(self, g: &DiGraph, v: usize, from: int) -> bool {
        forall|k: int, j: int|
            from <= k < self.stack.len() && 0 <= j < g.succs(self.stack[k]).len() ==> {
                let t = #[trigger] g.succs(self.stack[k])[j];
                self.on_stack[t as int] && self.indices[t as int] < self.indices[v as int]
                    ==> self.lowlink[v as int] <= self.indices[t as int]
            }
    }
}

/// Somewhere a walk that starts inside a set and ends outside it steps out.
pub proof fn lemma_walk_exit(p: Seq<usize>, inside: spec_fn(usize) -> bool, from: int) -> (i: int)
    requires
        0 <= from < p.len(),
        inside(p[from]),
        !inside(p.last()),
    ensures
        from <= i < p.len() - 1,
        inside(p[i]),
        !inside(p[i + 1]),
    decreases p.len() - from,
{
    if !inside(p[from + 1]) {
        from
    } else {
        lemma_walk_exit(p, inside, from + 1)
    }
}

/// The invariant holds on when an unseen node that every node of the
/// stack reaches is given the next index and put on the stack.
proof fn lemma_visit(g: &DiGraph, st: TraversalState, v: usize)
    requires
        g.wf(),
        st.inv(g),
        g.has_node(v),
        !st.seen(v),
        forall|i: int| 0 <= i < st.stack.len() ==> reaches(g, #[trigger] st.stack[i], v),
    ensures
        st.visit(v).inv(g),
        st.index < g.spec_len(),
        !st.on_stack[v as int],
        !st.stack.contains(v),
{
    reveal(TraversalState::inv);
    g.lemma_wf();
    let e = st.visit(v);
    assert(st.index < g.spec_len() && e.seen_flags() == st.seen_flags().update(v as int, true)) by {
        lemma_count_true_set(st.seen_flags(), v as int);
        lemma_count_true_bound(st.seen_flags().update(v as int, true));
        assert(e.seen_flags() =~= st.seen_flags().update(v as int, true));
    }
    assert(!st.stack.contains(v)) by {
        if st.stack.contains(v) {
            let i = choose|i: int| 0 <= i < st.stack.len() && st.stack[i] == v;
            assert(st.seen(st.stack[i]));
        }
    }
    assert(e.indices_ok()) by {
        lemma_count_true_set(st.seen_flags(), v as int);
        assert forall|u: usize| u < e.indices.len() && e.seen(u) implies #[trigger] e.indices[u as int]
            < e.index by {
            if u != v {
                assert(st.seen(u));
                assert(st.indices[u as int] < st.index);
            }
        }
    }
    assert(e.stack_ok(g)) by {
        lemma_reaches_refl(g, v);
        assert forall|i: int| 0 <= i < e.stack.len() implies g.has_node(#[trigger] e.stack[i])
            && e.seen(e.stack[i]) && e.on_stack[e.stack[i] as int] by {
            if i < st.stack.len() {
                assert(st.seen(st.stack[i]));
            }
        }
        assert forall|u: usize| u < e.on_stack.len() && #[trigger] e.on_stack[u as int] implies e.stack.contains(
            u,
        ) by {
            if u == v {
                assert(e.stack[st.stack.len() as int] == v);
            } else {
                assert(st.on_stack[u as int]);
                let i = choose|i: int| 0 <= i < st.stack.len() && st.stack[i] == u;
                assert(e.stack[i] == u);
            }
        }
        assert forall|i: int, j: int| 0 <= i < j < e.stack.len() implies e.indices[
            #[trigger] e.stack[i] as int
        ] < e.indices[#[trigger] e.stack[j] as int] by {
            assert(st.seen(st.stack[i]));
            assert(st.indices[st.stack[i] as int] < st.index);
            if j < st.stack.len() {
                assert(st.seen(st.stack[j]));
            }
        }
        assert forall|i: int, j: int| 0 <= i <= j < e.stack.len() implies reaches(
            g,
            #[trigger] e.stack[i],
            #[trigger] e.stack[j],
        ) by {
            if j < st.stack.len() {
                assert(reaches(g, st.stack[i], st.stack[j]));
            } else if i < st.stack.len() {
                assert(reaches(g, st.stack[i], v));
            }
        }
    }
    assert(e.parts_ok(g)) by {
        assert forall|u: usize|
            g.has_node(u) && e.seen(u) && !e.on_stack[u as int] implies exists|k: int|
            0 <= k < e.components.len() && (#[trigger] e.components[k]).contains(u) by {
            assert(u != v);
            assert(st.seen(u) && !st.on_stack[u as int]);
            let k = choose|k: int|
                0 <= k < st.components.len() && (#[trigger] st.components[k]).contains(u);
            assert(e.components[k].contains(u));
        }
    }
    assert(e.done_ok(g)) by {
        assert forall|u: usize, j: int|
            g.has_node(u) && e.done[u as int] && 0 <= j < g.succs(u).len() implies e.seen(
            #[trigger] g.succs(u)[j],
        ) by {
            assert(st.seen(g.succs(u)[j]));
        }
    }
}

/// The invariant holds on when a node all of whose successors have been
/// seen is marked as done.
proof fn lemma_finish(g: &DiGraph, st: TraversalState, v: usize)
    requires
        st.inv(g),
        g.has_node(v),
        st.seen(v),
        forall|j: int| 0 <= j < g.succs(v).len() ==> st.seen(#[trigger] g.succs(v)[j]),
    ensures
        st.finish(v).inv(g),
{
    reveal(TraversalState::inv);
    let e = st.finish(v);
    assert(e.seen_flags() =~= st.seen_flags());
    assert(e.indices_ok());
    assert(e.stack_ok(g));
    assert(e.parts_ok(g)) by {
        assert forall|u: usize|
            g.has_node(u) && e.seen(u) && !e.on_stack[u as int] implies exists|k: int|
            0 <= k < e.components.len() && (#[trigger] e.components[k]).contains(u) by {
            assert(st.seen(u));
            let k = choose|k: int|
                0 <= k < st.components.len() && (#[trigger] st.components[k]).contains(u);
            assert(e.components[k].contains(u));
        }
    }
    assert(e.classes_ok(g));
    assert(e.done_ok(g)) by {
        assert forall|u: usize, j: int|
            g.has_node(u) && e.done[u as int] && 0 <= j < g.succs(u).len() implies e.seen(
            #[trigger] g.succs(u)[j],
        ) by {
            if u != v {
                assert(st.done[u as int]);
            }
        }
    }
}

/// The low-link of a node does not enter the invariant.
proof fn lemma_lowlink_free(g: &DiGraph, st: TraversalState, next: TraversalState)
    requires
        st.inv(g),
        next == (TraversalState { lowlink: next.lowlink, ..st }),
        next.lowlink.len() == st.lowlink.len(),
    ensures
        next.inv(g),
{
    reveal(TraversalState::inv);
    assert(next.seen_flags() =~= st.seen_flags());
    assert(next.indices_ok());
    assert(next.stack_ok(g));
    assert(next.parts_ok(g)) by {
        assert forall|u: usize|
            g.has_node(u) && next.seen(u) && !next.on_stack[u as int] implies exists|k: int|
            0 <= k < next.components.len() && (#[trigger] next.components[k]).contains(u) by {
            assert(st.seen(u));
            let k = choose|k: int|
                0 <= k < st.components.len() && (#[trigger] st.components[k]).contains(u);
            assert(next.components[k].contains(u));
        }
    }
    assert(next.classes_ok(g));
    assert(next.done_ok(g));
}

/// The parts of the invariant that the code of the traversal reads.
proof fn lemma_inv_facts(g: &DiGraph, st: TraversalState)
    requires
        st.inv(g),
    ensures
        st.sized(g.spec_len()),
        st.indices_ok(),
        st.stack_ok(g),
        st.parts_ok(g),
        st.classes_ok(g),
        callees_first(g, st.components),
        st.done_ok(g),
{
    reveal(TraversalState::inv);
}

/// Closing the stack from the position of a node whose low-link is its own
/// index keeps the invariant: what is closed is a class of mutual
/// reachability.
proof fn lemma_close(g: &DiGraph, st: TraversalState, at: int, next: TraversalState)
    requires
        g.wf(),
        st.inv(g),
        0 <= at < st.stack.len(),
        st.closes_to(at, next),
        st.lowlink[st.stack[at] as int] == st.indices[st.stack[at] as int],
        forall|k: int| at < k < st.stack.len() ==> st.done[#[trigger] st.stack[k] as int],
        forall|j: int|
            0 <= j < g.succs(st.stack[at]).len() ==> st.seen(#[trigger] g.succs(st.stack[at])[j]),
        forall|k: int|
            at <= k < st.stack.len() ==> reaches(g, #[trigger] st.stack[k], st.stack[at]),
        st.no_lower_edges(g, st.stack[at], at),
    ensures
        next.finish(st.stack[at]).inv(g),
{
    reveal(TraversalState::inv);
    g.lemma_wf();
    let v = st.stack[at];
    let len = st.stack.len() as int;
    let part = st.stack.subrange(at, len);
    let comp = part.reverse();
    let e = next.finish(v);
    let old_parts = st.components.len() as int;
    assert forall|k: int| at <= k < len implies part.contains(#[trigger] st.stack[k]) by {
        assert(part[k - at] == st.stack[k]);
    }
    assert forall|u: usize| part.contains(u) implies exists|k: int|
        at <= k < len && #[trigger] st.stack[k] == u by {
        let i = choose|i: int| 0 <= i < part.len() && part[i] == u;
        assert(st.stack[i + at] == u);
    }
    assert forall|j: int| 0 <= j < comp.len() implies #[trigger] comp[j] == st.stack[len - 1 - j] by {}
    assert forall|u: usize| part.contains(u) implies comp.contains(u) by {
        let i = choose|i: int| 0 <= i < part.len() && part[i] == u;
        assert(comp[part.len() - 1 - i] == u);
    }
    assert forall|u: usize| comp.contains(u) implies part.contains(u) by {
        let i = choose|i: int| 0 <= i < comp.len() && comp[i] == u;
        assert(part[part.len() - 1 - i] == u);
    }
    assert forall|i: int| 0 <= i < at implies !part.contains(#[trigger] st.stack[i]) by {
        if part.contains(st.stack[i]) {
            let k = choose|k: int| at <= k < len && #[trigger] st.stack[k] == st.stack[i];
            assert(false);
        }
    }
    assert(e.seen_flags() =~= st.seen_flags());
    assert(e.indices_ok());
    assert(e.stack_ok(g)) by {
        assert forall|i: int| 0 <= i < e.stack.len() implies g.has_node(#[trigger] e.stack[i])
            && e.seen(e.stack[i]) && e.on_stack[e.stack[i] as int] by {
            assert(e.stack[i] == st.stack[i]);
            assert(st.on_stack[st.stack[i] as int]);
        }
        assert forall|u: usize| u < e.on_stack.len() && #[trigger] e.on_stack[u as int] implies e.stack.contains(
            u,
        ) by {
            assert(st.on_stack[u as int] && !part.contains(u));
            let i = choose|i: int| 0 <= i < st.stack.len() && st.stack[i] == u;
            if i >= at {
                assert(part.contains(st.stack[i]));
            }
            assert(e.stack[i] == u);
        }
        assert forall|i: int, j: int| 0 <= i < j < e.stack.len() implies e.indices[
            #[trigger] e.stack[i] as int
        ] < e.indices[#[trigger] e.stack[j] as int] by {
            assert(st.indices[st.stack[i] as int] < st.indices[st.stack[j] as int]);
        }
        assert forall|i: int, j: int| 0 <= i <= j < e.stack.len() implies reaches(
            g,
            #[trigger] e.stack[i],
            #[trigger] e.stack[j],
        ) by {
            assert(reaches(g, st.stack[i], st.stack[j]));
        }
    }
    assert(e.parts_ok(g)) by {
        assert forall|k: int| 0 <= k < e.components.len() implies (#[trigger] e.components[k]).len()
            > 0 by {
            if k < old_parts {
                assert(e.components[k] == st.components[k]);
            }
        }
        assert forall|k: int, j: int|
            0 <= k < e.components.len() && 0 <= j < e.components[k].len() implies {
            let u = #[trigger] e.components[k][j];
            g.has_node(u) && e.seen(u) && !e.on_stack[u as int]
        } by {
            if k < old_parts {
                assert(e.components[k][j] == st.components[k][j]);
            } else {
                assert(e.components[k][j] == comp[j]);
                assert(part.contains(st.stack[len - 1 - j]));
                assert(st.seen(st.stack[len - 1 - j]));
            }
        }
        assert forall|u: usize|
            g.has_node(u) && e.seen(u) && !e.on_stack[u as int] implies exists|k: int|
            0 <= k < e.components.len() && (#[trigger] e.components[k]).contains(u) by {
            if !st.on_stack[u as int] {
                let k = choose|k: int|
                    0 <= k < st.components.len() && (#[trigger] st.components[k]).contains(u);
                assert(e.components[k] == st.components[k]);
                assert(e.components[k].contains(u));
            } else {
                assert(part.contains(u));
                assert(e.components[old_parts] == comp);
                assert(e.components[old_parts].contains(u));
            }
        }
        assert forall|k1: int, j1: int, k2: int, j2: int|
            0 <= k1 < e.components.len() && 0 <= j1 < e.components[k1].len() && 0 <= k2
                < e.components.len() && 0 <= j2 < e.components[k2].len()
                && #[trigger] e.components[k1][j1] == #[trigger] e.components[k2][j2] implies k1
            == k2 && j1 == j2 by {
            if k1 < old_parts && k2 < old_parts {
                assert(st.components[k1][j1] == st.components[k2][j2]);
            } else if k1 < old_parts {
                assert(!st.on_stack[st.components[k1][j1] as int]);
                assert(e.components[k2][j2] == st.stack[len - 1 - j2]);
                assert(st.on_stack[st.stack[len - 1 - j2] as int]);
            } else if k2 < old_parts {
                assert(!st.on_stack[st.components[k2][j2] as int]);
                assert(e.components[k1][j1] == st.stack[len - 1 - j1]);
                assert(st.on_stack[st.stack[len - 1 - j1] as int]);
            } else {
                assert(e.components[k1][j1] == st.stack[len - 1 - j1]);
                assert(e.components[k2][j2] == st.stack[len - 1 - j2]);
            }
        }
    }
    assert(e.classes_ok(g)) by {
        assert forall|k: int, j: int, b: usize|
            0 <= k < e.components.len() && 0 <= j < e.components[k].len() && g.has_node(
                b,
            ) implies (mutually_reachable(g, #[trigger] e.components[k][j], b)
            <==> #[trigger] e.components[k].contains(b)) by {
            if k < old_parts {
                assert(e.components[k] == st.components[k]);
                assert(mutually_reachable(g, st.components[k][j], b) <==> st.components[k].contains(
                    b,
                ));
            } else {
                let ka = len - 1 - j;
                let a = st.stack[ka];
                assert(e.components[k] == comp);
                assert(comp[j] == a);
                assert(reaches(g, st.stack[ka], v));
                assert(reaches(g, st.stack[at], st.stack[ka]));
                if comp.contains(b) {
                    let kb = choose|kb: int| at <= kb < len && #[trigger] st.stack[kb] == b;
                    assert(reaches(g, st.stack[kb], v));
                    assert(reaches(g, st.stack[at], st.stack[kb]));
                    lemma_reaches_trans(g, a, v, b);
                    lemma_reaches_trans(g, b, v, a);
                }
                if mutually_reachable(g, a, b) && !comp.contains(b) {
                    lemma_reaches_trans(g, v, a, b);
                    lemma_reaches_trans(g, b, a, v);
                    lemma_class_is_closed(g, st, at, b);
                    assert(part.contains(b));
                }
            }
        }
    }
    assert(callees_first(g, e.components)) by {
        assert forall|k: int, j: int, i: int|
            0 <= k < e.components.len() && 0 <= j < e.components[k].len() && 0 <= i < g.succs(
                e.components[k][j],
            ).len() implies placed_by(e.components, k, #[trigger] g.succs(e.components[k][j])[i]) by {
            let b = g.succs(e.components[k][j])[i];
            if k < old_parts {
                assert(e.components[k] == st.components[k]);
                assert(placed_by(st.components, k, g.succs(st.components[k][j])[i]));
                let k2 = choose|k2: int|
                    0 <= k2 <= k && k2 < st.components.len() && (#[trigger] st.components[k2]).contains(
                        b,
                    );
                assert(e.components[k2] == st.components[k2]);
            } else {
                let ka = len - 1 - j;
                assert(e.components[k] == comp);
                assert(comp[j] == st.stack[ka]);
                assert(g.has_node(st.stack[ka]));
                assert(g.has_node(b));
                assert(st.seen(g.succs(st.stack[ka])[i])) by {
                    if ka > at {
                        assert(st.done[st.stack[ka] as int]);
                    }
                }
                if st.on_stack[b as int] {
                    let q = choose|q: int| 0 <= q < st.stack.len() && st.stack[q] == b;
                    if q < at {
                        assert(st.indices[st.stack[q] as int] < st.indices[st.stack[at] as int]);
                        let t = g.succs(st.stack[ka])[i];
                        assert(st.lowlink[v as int] <= st.indices[t as int]);
                    }
                    assert(part.contains(st.stack[q]));
                    assert(e.components[old_parts].contains(b));
                } else {
                    let k2 = choose|k2: int|
                        0 <= k2 < st.components.len() && (#[trigger] st.components[k2]).contains(b);
                    assert(e.components[k2] == st.components[k2]);
                    assert(e.components[k2].contains(b));
                }
            }
        }
    }
    assert(e.done_ok(g)) by {
        assert forall|u: usize, j: int|
            g.has_node(u) && e.done[u as int] && 0 <= j < g.succs(u).len() implies e.seen(
            #[trigger] g.succs(u)[j],
        ) by {
            if u != v {
                assert(st.done[u as int]);
            }
        }
        assert forall|u: usize|
            g.has_node(u) && e.seen(u) && !#[trigger] e.on_stack[u as int] implies e.done[u as int] by {
            if st.on_stack[u as int] {
                assert(part.contains(u));
                let k = choose|k: int| at <= k < len && #[trigger] st.stack[k] == u;
                if k > at {
                    assert(st.done[st.stack[k] as int]);
                }
            }
        }
    }
}

/// Every node that is mutually reachable with the node that closes a
/// component lies in the part of the stack that is about to be closed.
proof fn lemma_class_is_closed(g: &DiGraph, st: TraversalState, at: int, b: usize)
    requires
        g.wf(),
        st.inv(g),
        0 <= at < st.stack.len(),
        st.lowlink[st.stack[at] as int] == st.indices[st.stack[at] as int],
        forall|k: int| at < k < st.stack.len() ==> st.done[#[trigger] st.stack[k] as int],
        forall|j: int|
            0 <= j < g.succs(st.stack[at]).len() ==> st.seen(#[trigger] g.succs(st.stack[at])[j]),
        st.no_lower_edges(g, st.stack[at], at),
        g.has_node(b),
        mutually_reachable(g, st.stack[at], b),
    ensures
        st.stack.subrange(at, st.stack.len() as int).contains(b),
{
    reveal(TraversalState::inv);
    g.lemma_wf();
    let v = st.stack[at];
    let len = st.stack.len() as int;
    let part = st.stack.subrange(at, len);
    assert forall|k: int| at <= k < len implies part.contains(#[trigger] st.stack[k]) by {
        assert(part[k - at] == st.stack[k]);
    }
    if !part.contains(b) {
        let p = choose|w: Seq<usize>| is_walk(g, w) && w[0] == v && #[trigger] w.last() == b;
        let inside = |u: usize| part.contains(u);
        assert(inside(p[0]));
        let i = lemma_walk_exit(p, inside, 0);
        let a2 = p[i];
        let b2 = p[i + 1];
        assert(g.has_edge(a2, b2));
        lemma_walk_inner(g, p, i + 1);
        lemma_reaches_trans(g, b2, b, v);
        let i2 = choose|i2: int| 0 <= i2 < part.len() && part[i2] == a2;
        let k2 = i2 + at;
        assert(st.stack[k2] == a2);
        let j2 = choose|j: int| 0 <= j < g.succs(a2).len() && g.succs(a2)[j] == b2;
        assert(st.seen(g.succs(st.stack[k2])[j2])) by {
            if k2 > at {
                assert(st.done[st.stack[k2] as int]);
            }
        }
        if st.on_stack[b2 as int] {
            let q = choose|q: int| 0 <= q < st.stack.len() && st.stack[q] == b2;
            if q >= at {
                assert(part.contains(st.stack[q]));
            }
            assert(st.indices[st.stack[q] as int] < st.indices[st.stack[at] as int]);
            let t = g.succs(st.stack[k2])[j2];
            assert(st.on_stack[t as int] && st.indices[t as int] < st.indices[v as int]);
            assert(st.lowlink[v as int] <= st.indices[t as int]);
        } else {
            let k = choose|k: int|
                0 <= k < st.components.len() && (#[trigger] st.components[k]).contains(b2);
            let j = choose|j: int| 0 <= j < st.components[k].len() && st.components[k][j] == b2;
            assert(mutually_reachable(g, st.components[k][j], v));
            assert(st.components[k].contains(v));
            let jv = choose|jv: int| 0 <= jv < st.components[k].len() && st.components[k][jv] == v;
            assert(!st.on_stack[st.components[k][jv] as int]);
            assert(st.on_stack[st.stack[at] as int]);
        }
    }
}

/// How a later state of the traversal relates to an earlier one: what was
/// seen keeps its index, what was on the stack stays there with its
/// low-link, and what was closed stays closed.
#[verifier::opaque]
pub open spec fn advanced(g: &DiGraph, a: TraversalState, b: TraversalState) -> bool {
    &&& a.index <= b.index
    &&& forall|u: usize|
        g.has_node(u) && a.seen(u) ==> #[trigger] b.indices[u as int] == a.indices[u as int]
    &&& forall|u: usize|
        g.has_node(u) && !a.seen(u) && b.seen(u) ==> #[trigger] b.indices[u as int] >= a.index
    &&& forall|u: usize| g.has_node(u) && a.done[u as int] ==> #[trigger] b.done[u as int]
    &&& a.stack.len() <= b.stack.len()
    &&& forall|i: int| 0 <= i < a.stack.len() ==> #[trigger] b.stack[i] == a.stack[i]
    &&& forall|i: int|
        0 <= i < a.stack.len() ==> b.lowlink[#[trigger] a.stack[i] as int] == a.lowlink[a.stack[i] as int]
    &&& a.components.len() <= b.components.len()
    &&& forall|k: int| 0 <= k < a.components.len() ==> #[trigger] b.components[k] == a.components[k]
}

/// What the traversal from the unseen node `v` leaves behind. Either `v`
/// closed a component and the stack is as before, or `v` stays on the stack
/// with all that was put above it, and its low-link is the index of the node
/// at position `low` of the earlier stack, which `v` reaches.
#[verifier::opaque]
pub open spec fn settled(
    g: &DiGraph,
    a: TraversalState,
    b: TraversalState,
    v: usize,
    low: int,
) -> bool {
    let at = a.stack.len() as int;
    if b.on_stack[v as int] {
        &&& b.stack.len() > at
        &&& b.stack[at] == v
        &&& b.lowlink[v as int] < b.indices[v as int]
        &&& 0 <= low < at
        &&& b.indices[a.stack[low] as int] == b.lowlink[v as int]
        &&& reaches(g, v, a.stack[low])
        &&& forall|k: int| at <= k < b.stack.len() ==> reaches(g, #[trigger] b.stack[k], v)
        &&& forall|k: int| at <= k < b.stack.len() ==> b.done[#[trigger] b.stack[k] as int]
        &&& b.no_lower_edges(g, v, at)
    } else {
        &&& b.stack == a.stack
        &&& b.lowlink[v as int] == b.indices[v as int]
    }
}

/// What holds while the successors of `v`, which stands at position `at` of
/// the stack, are looked at, the first `upto` of them being dealt with.
#[verifier::opaque]
pub open spec fn scan_ok(
    g: &DiGraph,
    st: TraversalState,
    v: usize,
    at: int,
    upto: int,
    low: int,
) -> bool {
    &&& st.inv(g)
    &&& g.has_node(v)
    &&& 0 <= at < st.stack.len()
    &&& st.stack[at] == v
    &&& 0 <= low <= at
    &&& st.indices[st.stack[low] as int] == st.lowlink[v as int]
    &&& reaches(g, v, st.stack[low])
    &&& forall|k: int| 0 <= k < st.stack.len() ==> reaches(g, #[trigger] st.stack[k], v)
    &&& forall|k: int| at < k < st.stack.len() ==> st.done[#[trigger] st.stack[k] as int]
    &&& forall|j: int| 0 <= j < upto && j < g.succs(v).len() ==> st.seen(#[trigger] g.succs(v)[j])
    &&& forall|j: int|
        0 <= j < upto && j < g.succs(v).len() ==> {
            let x = #[trigger] g.succs(v)[j];
            st.on_stack[x as int] && st.indices[x as int] < st.indices[v as int]
                ==> st.lowlink[v as int] <= st.indices[x as int]
        }
    &&& st.no_lower_edges(g, v, at + 1)
}

/// The scan of a node that has just been put on the stack may begin.
proof fn lemma_scan_start(g: &DiGraph, entry: TraversalState, v: usize)
    requires
        g.wf(),
        entry.inv(g),
        g.has_node(v),
        !entry.seen(v),
        forall|i: int| 0 <= i < entry.stack.len() ==> reaches(g, #[trigger] entry.stack[i], v),
    ensures
        scan_ok(g, entry.visit(v), v, entry.stack.len() as int, 0, entry.stack.len() as int),
        advanced(g, entry, entry.visit(v)),
        entry.index < g.spec_len(),
        entry.visit(v).indices[v as int] == entry.index,
{
    reveal(scan_ok);
    reveal(advanced);
    reveal(settled);
    lemma_visit(g, entry, v);
    lemma_inv_facts(g, entry);
    g.lemma_wf();
    lemma_reaches_refl(g, v);
    let e = entry.visit(v);
    assert forall|i: int| 0 <= i < entry.stack.len() implies e.lowlink[
        #[trigger] entry.stack[i] as int
    ] == entry.lowlink[entry.stack[i] as int] by {
        assert(entry.seen(entry.stack[i]));
    }
    assert forall|k: int| 0 <= k < e.stack.len() implies reaches(g, #[trigger] e.stack[k], v) by {
        if k < entry.stack.len() {
            assert(e.stack[k] == entry.stack[k]);
        }
    }
}

/// A node on the stack whose index lies below that of the node at position
/// `at` stands below that position.
proof fn lemma_below(g: &DiGraph, st: TraversalState, at: int, x: usize) -> (q: int)
    requires
        st.inv(g),
        0 <= at < st.stack.len(),
        g.has_node(x),
        st.on_stack[x as int],
        st.indices[x as int] <= st.indices[st.stack[at] as int],
    ensures
        0 <= q <= at,
        st.stack[q] == x,
        st.indices[x as int] < st.indices[st.stack[at] as int] ==> q < at,
{
    lemma_inv_facts(g, st);
    let q = choose|q: int| 0 <= q < st.stack.len() && st.stack[q] == x;
    if q > at {
        assert(st.indices[st.stack[at] as int] < st.indices[st.stack[q] as int]);
    }
    q
}

/// The state with the low-link of `v` set to `x`.
pub open spec fn with_lowlink(st: TraversalState, v: usize, x: usize) -> TraversalState {
    TraversalState { lowlink: st.lowlink.update(v as int, x), ..st }
}

/// After the traversal from the unseen successor `w` has returned and the
/// low-link of `v` has taken that of `w` where it is smaller, the scan of
/// `v` may go on.
proof fn lemma_scan_descend(
    g: &DiGraph,
    before: TraversalState,
    after: TraversalState,
    v: usize,
    at: int,
    i: int,
    low: int,
    low_w: int,
) -> (low2: int)
    requires
        g.wf(),
        scan_ok(g, before, v, at, i, low),
        0 <= i < g.succs(v).len(),
        !before.seen(g.succs(v)[i]),
        after.inv(g),
        after.seen(g.succs(v)[i]),
        before.index < after.index,
        advanced(g, before, after),
        settled(g, before, after, g.succs(v)[i], low_w),
    ensures
        low2 == if after.lowlink[g.succs(v)[i] as int] < after.lowlink[v as int] {
            low_w
        } else {
            low
        },
        scan_ok(
            g,
            with_lowlink(
                after,
                v,
                if after.lowlink[g.succs(v)[i] as int] < after.lowlink[v as int] {
                    after.lowlink[g.succs(v)[i] as int]
                } else {
                    after.lowlink[v as int]
                },
            ),
            v,
            at,
            i + 1,
            low2,
        ),
{
    reveal(scan_ok);
    reveal(advanced);
    reveal(settled);
    g.lemma_wf();
    let w = g.succs(v)[i];
    let lw = after.lowlink[w as int];
    let lv = after.lowlink[v as int];
    let x = if lw < lv {
        lw
    } else {
        lv
    };
    let low2 = if lw < lv {
        low_w
    } else {
        low
    };
    let next = with_lowlink(after, v, x);
    lemma_inv_facts(g, before);
    lemma_inv_facts(g, after);
    lemma_lowlink_free(g, after, next);
    assert(g.has_node(w));
    assert(g.has_edge(v, w));
    lemma_reaches_edge(g, v, w);
    assert(before.stack[at] == v && after.stack[at] == v);
    assert(before.seen(v));
    assert(after.indices[v as int] == before.indices[v as int]);
    assert(after.lowlink[before.stack[at] as int] == before.lowlink[before.stack[at] as int]);
    assert(before.indices[before.stack[low] as int] == after.indices[after.stack[low] as int]) by {
        assert(before.seen(before.stack[low]));
        assert(after.stack[low] == before.stack[low]);
    }
    assert(after.indices[w as int] >= before.index);
    assert(before.indices[v as int] < before.index);
    let top = before.stack.len() as int;
    // The low-link of `v` still names a node of the stack that `v` reaches.
    if after.on_stack[w as int] {
        assert(after.stack[low_w] == before.stack[low_w]);
        lemma_reaches_trans(g, v, w, before.stack[low_w]);
        if lw < lv {
            let q = lemma_below(g, after, at, after.stack[low_w]);
            assert(q == low_w);
        }
    } else {
        assert(lw == after.indices[w as int]);
        assert(lv <= after.indices[v as int]) by {
            assert(before.indices[before.stack[low] as int] <= before.indices[before.stack[at] as int]);
        }
    }
    assert(next.indices[next.stack[low2] as int] == next.lowlink[v as int]);
    assert(reaches(g, v, next.stack[low2]));
    assert forall|k: int| 0 <= k < next.stack.len() implies reaches(g, #[trigger] next.stack[k], v) by {
        if k < top {
            assert(after.stack[k] == before.stack[k]);
            assert(reaches(g, before.stack[k], v));
        } else {
            assert(after.on_stack[after.stack[k] as int]);
            assert(reaches(g, after.stack[k], w));
            assert(reaches(g, before.stack[low_w], v));
            lemma_reaches_trans(g, after.stack[k], w, before.stack[low_w]);
            lemma_reaches_trans(g, after.stack[k], before.stack[low_w], v);
        }
    }
    assert forall|k: int| at < k < next.stack.len() implies next.done[#[trigger] next.stack[k] as int] by {
        if k < top {
            assert(after.stack[k] == before.stack[k]);
            assert(before.done[before.stack[k] as int]);
        }
    }
    assert forall|j: int| 0 <= j < i + 1 && j < g.succs(v).len() implies next.seen(
        #[trigger] g.succs(v)[j],
    ) by {
        if j < i {
            assert(before.seen(g.succs(v)[j]));
            assert(g.has_node(g.succs(v)[j]));
        }
    }
    assert forall|j: int| 0 <= j < i + 1 && j < g.succs(v).len() implies {
        let t = #[trigger] g.succs(v)[j];
        next.on_stack[t as int] && next.indices[t as int] < next.indices[v as int]
            ==> next.lowlink[v as int] <= next.indices[t as int]
    } by {
        let t = g.succs(v)[j];
        assert(g.has_node(t));
        if next.on_stack[t as int] && next.indices[t as int] < next.indices[v as int] {
            if j < i {
                let q = lemma_below(g, after, at, t);
                assert(before.stack[q] == t);
                assert(before.on_stack[before.stack[q] as int]);
                assert(before.seen(t));
                assert(before.lowlink[v as int] <= before.indices[t as int]);
            }
        }
    }
    assert(next.no_lower_edges(g, v, at + 1)) by {
        assert forall|k: int, j: int|
            at + 1 <= k < next.stack.len() && 0 <= j < g.succs(next.stack[k]).len() implies {
            let t = #[trigger] g.succs(next.stack[k])[j];
            next.on_stack[t as int] && next.indices[t as int] < next.indices[v as int]
                ==> next.lowlink[v as int] <= next.indices[t as int]
        } by {
            let t = g.succs(next.stack[k])[j];
            assert(g.has_node(after.stack[k]));
            assert(g.has_node(t));
            if next.on_stack[t as int] && next.indices[t as int] < next.indices[v as int] {
                let q = lemma_below(g, after, at, t);
                assert(before.stack[q] == t);
                assert(before.on_stack[before.stack[q] as int]);
                assert(before.seen(t));
                if k < top {
                    assert(after.stack[k] == before.stack[k]);
                    let t0 = g.succs(before.stack[k])[j];
                    assert(before.lowlink[v as int] <= before.indices[t0 as int]);
                } else {
                    assert(after.on_stack[after.stack[k] as int]);
                    assert(after.on_stack[w as int]);
                    let t1 = g.succs(after.stack[k])[j];
                    assert(after.indices[t1 as int] < after.indices[w as int]);
                    assert(after.lowlink[w as int] <= after.indices[t1 as int]);
                }
            }
        }
    }
    low2
}

/// After the low-link of `v` has taken the index of a successor that is on
/// the stack where that is smaller, the scan of `v` may go on.
proof fn lemma_scan_back(g: &DiGraph, st: TraversalState, v: usize, at: int, i: int, low: int) -> (low2:
    int)
    requires
        g.wf(),
        scan_ok(g, st, v, at, i, low),
        0 <= i < g.succs(v).len(),
        st.seen(g.succs(v)[i]),
        st.on_stack[g.succs(v)[i] as int],
    ensures
        scan_ok(
            g,
            with_lowlink(
                st,
                v,
                if st.indices[g.succs(v)[i] as int] < st.lowlink[v as int] {
                    st.indices[g.succs(v)[i] as int]
                } else {
                    st.lowlink[v as int]
                },
            ),
            v,
            at,
            i + 1,
            low2,
        ),
{
    reveal(scan_ok);
    reveal(advanced);
    reveal(settled);
    g.lemma_wf();
    let w = g.succs(v)[i];
    let iw = st.indices[w as int];
    let lv = st.lowlink[v as int];
    let x = if iw < lv {
        iw
    } else {
        lv
    };
    let next = with_lowlink(st, v, x);
    lemma_inv_facts(g, st);
    lemma_lowlink_free(g, st, next);
    assert(g.has_node(w));
    assert(g.has_edge(v, w));
    lemma_reaches_edge(g, v, w);
    assert(lv <= st.indices[v as int]) by {
        assert(st.indices[st.stack[low] as int] <= st.indices[st.stack[at] as int]);
    }
    let low2 = if iw < lv {
        lemma_below(g, st, at, w)
    } else {
        low
    };
    assert forall|j: int| 0 <= j < i + 1 && j < g.succs(v).len() implies next.seen(
        #[trigger] g.succs(v)[j],
    ) by {}
    assert forall|j: int| 0 <= j < i + 1 && j < g.succs(v).len() implies {
        let t = #[trigger] g.succs(v)[j];
        next.on_stack[t as int] && next.indices[t as int] < next.indices[v as int]
            ==> next.lowlink[v as int] <= next.indices[t as int]
    } by {}
    assert(next.no_lower_edges(g, v, at + 1)) by {
        assert forall|k: int, j: int|
            at + 1 <= k < next.stack.len() && 0 <= j < g.succs(next.stack[k]).len() implies {
            let t = #[trigger] g.succs(next.stack[k])[j];
            next.on_stack[t as int] && next.indices[t as int] < next.indices[v as int]
                ==> next.lowlink[v as int] <= next.indices[t as int]
        } by {
            let t = g.succs(st.stack[k])[j];
            assert(st.on_stack[t as int] && st.indices[t as int] < st.indices[v as int]
                ==> st.lowlink[v as int] <= st.indices[t as int]);
        }
    }
    low2
}

/// A successor that has been seen and has left the stack changes nothing.
proof fn lemma_scan_skip(g: &DiGraph, st: TraversalState, v: usize, at: int, i: int, low: int)
    requires
        scan_ok(g, st, v, at, i, low),
        0 <= i < g.succs(v).len(),
        st.seen(g.succs(v)[i]),
        !st.on_stack[g.succs(v)[i] as int],
    ensures
        scan_ok(g, st, v, at, i + 1, low),
{
    reveal(scan_ok);
    reveal(advanced);
    reveal(settled);
}

/// Setting the low-link of the node in hand keeps what relates the state to
/// the one in which its traversal began.
proof fn lemma_advanced_on(
    g: &DiGraph,
    entry: TraversalState,
    before: TraversalState,
    after: TraversalState,
    next: TraversalState,
    v: usize,
)
    requires
        g.has_node(v),
        !entry.seen(v),
        entry.inv(g),
        advanced(g, entry, before),
        advanced(g, before, after),
        next == with_lowlink(after, v, next.lowlink[v as int]),
        after.lowlink.len() == g.spec_len(),
    ensures
        advanced(g, entry, next),
{
    reveal(scan_ok);
    reveal(advanced);
    reveal(settled);
    lemma_inv_facts(g, entry);
    assert forall|u: usize| g.has_node(u) && entry.seen(u) implies #[trigger] next.indices[u as int]
        == entry.indices[u as int] by {
        assert(before.indices[u as int] == entry.indices[u as int]);
        assert(before.seen(u));
    }
    assert forall|u: usize| g.has_node(u) && !entry.seen(u) && next.seen(u) implies #[trigger] next.indices[u as int]
        >= entry.index by {
        if before.seen(u) {
            assert(before.indices[u as int] >= entry.index);
            assert(after.indices[u as int] == before.indices[u as int]);
        } else {
            assert(after.indices[u as int] >= before.index);
        }
    }
    assert forall|u: usize| g.has_node(u) && entry.done[u as int] implies #[trigger] next.done[u as int] by {
        assert(before.done[u as int]);
    }
    assert forall|i: int| 0 <= i < entry.stack.len() implies #[trigger] next.stack[i]
        == entry.stack[i] by {
        assert(before.stack[i] == entry.stack[i]);
        assert(after.stack[i] == before.stack[i]);
    }
    assert forall|i: int| 0 <= i < entry.stack.len() implies next.lowlink[
        #[trigger] entry.stack[i] as int
    ] == entry.lowlink[entry.stack[i] as int] by {
        assert(before.stack[i] == entry.stack[i]);
        assert(before.lowlink[entry.stack[i] as int] == entry.lowlink[entry.stack[i] as int]);
        assert(after.lowlink[before.stack[i] as int] == before.lowlink[before.stack[i] as int]);
        assert(entry.seen(entry.stack[i]));
    }
    assert forall|k: int| 0 <= k < entry.components.len() implies #[trigger] next.components[k]
        == entry.components[k] by {
        assert(before.components[k] == entry.components[k]);
        assert(after.components[k] == before.components[k]);
    }
}

/// When all successors of `v` have been dealt with, no node from the
/// position of `v` up has an edge below the low-link of `v`.
proof fn lemma_scan_end(g: &DiGraph, st: TraversalState, v: usize, at: int, low: int)
    requires
        scan_ok(g, st, v, at, g.succs(v).len() as int, low),
    ensures
        st.no_lower_edges(g, v, at),
        forall|j: int| 0 <= j < g.succs(v).len() ==> st.seen(#[trigger] g.succs(v)[j]),
        forall|k: int| at < k < st.stack.len() ==> st.done[#[trigger] st.stack[k] as int],
        forall|k: int| at <= k < st.stack.len() ==> reaches(g, #[trigger] st.stack[k], v),
        st.lowlink[v as int] <= st.indices[v as int],
        st.lowlink[v as int] < st.indices[v as int] ==> low < at,
{
    reveal(scan_ok);
    reveal(advanced);
    reveal(settled);
    lemma_inv_facts(g, st);
    assert(st.indices[st.stack[low] as int] <= st.indices[st.stack[at] as int]);
    assert forall|k: int, j: int|
        at <= k < st.stack.len() && 0 <= j < g.succs(st.stack[k]).len() implies {
        let t = #[trigger] g.succs(st.stack[k])[j];
        st.on_stack[t as int] && st.indices[t as int] < st.indices[v as int] ==> st.lowlink[v as int]
            <= st.indices[t as int]
    } by {
        if k == at {
            let x = g.succs(v)[j];
            assert(st.on_stack[x as int] && st.indices[x as int] < st.indices[v as int]
                ==> st.lowlink[v as int] <= st.indices[x as int]);
        }
    }
}

/// What the traversal from `v` leaves behind where `v` closed a component.
proof fn lemma_settled_closed(
    g: &DiGraph,
    entry: TraversalState,
    scanned: TraversalState,
    closed: TraversalState,
    last: TraversalState,
    v: usize,
)
    requires
        g.wf(),
        g.has_node(v),
        !entry.seen(v),
        entry.inv(g),
        scanned.inv(g),
        advanced(g, entry, scanned),
        entry.stack.len() < scanned.stack.len(),
        scanned.stack[entry.stack.len() as int] == v,
        scanned.lowlink[v as int] == scanned.indices[v as int],
        scanned.closes_to(entry.stack.len() as int, closed),
        last == closed.finish(v),
    ensures
        advanced(g, entry, last),
        settled(g, entry, last, v, 0),
{
    reveal(scan_ok);
    reveal(advanced);
    reveal(settled);
    g.lemma_wf();
    lemma_inv_facts(g, entry);
    lemma_inv_facts(g, scanned);
    let at = entry.stack.len() as int;
    let part = scanned.stack.subrange(at, scanned.stack.len() as int);
    assert(part[0] == v);
    assert(!last.on_stack[v as int]);
    assert(last.stack =~= entry.stack);
}

/// What the traversal from `v` leaves behind where `v` stays on the stack.
proof fn lemma_settled_open(
    g: &DiGraph,
    entry: TraversalState,
    scanned: TraversalState,
    last: TraversalState,
    v: usize,
    low: int,
)
    requires
        g.wf(),
        g.has_node(v),
        !entry.seen(v),
        entry.inv(g),
        advanced(g, entry, scanned),
        scan_ok(g, scanned, v, entry.stack.len() as int, g.succs(v).len() as int, low),
        scanned.lowlink[v as int] != scanned.indices[v as int],
        last == scanned.finish(v),
    ensures
        advanced(g, entry, last),
        settled(g, entry, last, v, low),
{
    reveal(scan_ok);
    reveal(advanced);
    reveal(settled);
    g.lemma_wf();
    lemma_inv_facts(g, entry);
    lemma_inv_facts(g, scanned);
    lemma_scan_end(g, scanned, v, entry.stack.len() as int, low);
    let at = entry.stack.len() as int;
    assert(scanned.on_stack[scanned.stack[at] as int]);
    assert(scanned.stack[low] == entry.stack[low]);
    assert forall|k: int| at <= k < last.stack.len() implies last.done[#[trigger] last.stack[k] as int] by {
        if k > at {
            assert(scanned.done[scanned.stack[k] as int]);
        }
    }
}

/// The working arrays of a traversal.
struct Traversal {
    index: usize,
    indices: Vec<usize>,
    lowlink: Vec<usize>,
    on_stack: Vec<bool>,
    stack: Vec<usize>,
    components: Vec<Vec<usize>>,
    done: Ghost<Seq<bool>>,
}

impl View for Traversal {
    type V = TraversalState;

    closed spec fn view(&self) -> TraversalState {
        TraversalState {
            index: self.index as nat,
            indices: self.indices@,
            lowlink: self.lowlink@,
            on_stack: self.on_stack@,
            stack: self.stack@,
            components: Seq::new(self.components@.len(), |k: int| self.components@[k]@),
            done: self.done@,
        }
    }
}

/// Pops the stack down to and with the node at position `at` and closes
/// what was popped into a component.
fn close_component(g: &DiGraph, t: &mut Traversal, v: usize, Ghost(at): Ghost<int>)
    requires
        g.wf(),
        old(t)@.inv(g),
        0 <= at < old(t)@.stack.len(),
        old(t)@.stack[at] == v,
    ensures
        old(t)@.closes_to(at, final(t)@),
{
    let ghost full = t@;
    let ghost len = full.stack.len() as int;
    proof {
        lemma_inv_facts(g, full);
        g.lemma_wf();
    }
    let mut component: Vec<usize> = Vec::new();
    loop
        invariant_except_break
            at < t.stack@.len() <= len,
        invariant
            g.wf(),
            full == old(t)@,
            len == full.stack.len(),
            0 <= at < len,
            full.stack[at] == v,
            full.stack_ok(g),
            full.sized(g.spec_len()),
            at <= t.stack@.len() <= len,
            t.stack@ == full.stack.subrange(0, t.stack@.len() as int),
            component@ == full.stack.subrange(t.stack@.len() as int, len).reverse(),
            t.on_stack@.len() == full.on_stack.len(),
            forall|u: usize|
                u < full.on_stack.len() ==> #[trigger] t.on_stack@[u as int] == (full.on_stack[u as int]
                    && !full.stack.subrange(t.stack@.len() as int, len).contains(u)),
            t.index == full.index,
            t.indices@ == full.indices,
            t.lowlink@ == full.lowlink,
            t.done@ == full.done,
            t.components@.len() == full.components.len(),
            forall|k: int| 0 <= k < full.components.len() ==> (#[trigger] t.components@[k])@ == full.components[k],
        ensures
            t.stack@.len() == at,
        decreases t.stack@.len(),
    {
        let ghost m = t.stack@.len() as int;
        let ghost above = full.stack.subrange(m, len);
        let ghost before_flags = t.on_stack@;
        let w = t.stack.pop().unwrap();
        assert(w == full.stack[m - 1]);
        assert(g.has_node(full.stack[m - 1]));
        t.on_stack[w] = false;
        component.push(w);
        proof {
            let now = full.stack.subrange(m - 1, len);
            assert(now =~= seq![w] + above);
            assert(component@ =~= now.reverse());
            assert forall|u: usize| u < full.on_stack.len() implies #[trigger] t.on_stack@[u as int] == (
            full.on_stack[u as int] && !now.contains(u)) by {
                if u == w {
                    assert(now[0] == w);
                } else {
                    assert(t.on_stack@[u as int] == before_flags[u as int]);
                    if above.contains(u) {
                        let i = choose|i: int| 0 <= i < above.len() && above[i] == u;
                        assert(now[i + 1] == u);
                    }
                    if now.contains(u) {
                        let i = choose|i: int| 0 <= i < now.len() && now[i] == u;
                        assert(above[i - 1] == u);
                    }
                }
            }
        }
        if w == v {
            proof {
                if m - 1 > at {
                    assert(full.stack[m - 1] == full.stack[at]);
                }
            }
            break ;
        }
        proof {
            if m - 1 == at {
                assert(full.stack[m - 1] == v);
            }
        }
    }
    t.components.push(component);
    proof {
        assert(t@.components =~= full.components.push(
            full.stack.subrange(at, len).reverse(),
        ));
    }
}

/// A node of the traversal whose successors are being looked at, with the
/// position of the successor that comes next.
struct Frame {
    node: usize,
    next: usize,
}

/// What proofs keep for each frame: the state in which the traversal of
/// its node began, and the stack position that the low-link of the node
/// names.
pub struct FrameNote {
    pub entry: TraversalState,
    pub low: int,
}

/// What holds of one frame. `shown` is the state that the frame last saw:
/// the current state for the frame on top, and for a frame below it the
/// state in which the traversal of the frame above, that of an unseen
/// successor, began.
#[verifier::opaque]
pub open spec fn frame_ok(
    g: &DiGraph,
    node: usize,
    next: int,
    note: FrameNote,
    shown: TraversalState,
) -> bool {
    &&& note.entry.inv(g)
    &&& g.has_node(node)
    &&& !note.entry.seen(node)
    &&& 0 <= next <= g.succs(node).len()
    &&& scan_ok(g, shown, node, note.entry.stack.len() as int, next, note.low)
    &&& advanced(g, note.entry, shown)
    &&& note.entry.index < shown.index
}

/// The state that the frame at position `k` last saw.
pub open spec fn shown_to(notes: Seq<FrameNote>, k: int, now: TraversalState) -> TraversalState {
    if k + 1 < notes.len() {
        notes[k + 1].entry
    } else {
        now
    }
}

/// Whether the frame at position `k` is in order.
pub open spec fn frame_at_ok(
    g: &DiGraph,
    nodes: Seq<usize>,
    nexts: Seq<int>,
    notes: Seq<FrameNote>,
    now: TraversalState,
    k: int,
) -> bool {
    frame_ok(g, nodes[k], nexts[k], notes[k], shown_to(notes, k, now))
}

/// Whether the frame at position `k` waits for the frame above it: that
/// one belongs to the successor that the frame had come to, which was
/// unseen when its traversal began.
pub open spec fn frame_waits(
    g: &DiGraph,
    nodes: Seq<usize>,
    nexts: Seq<int>,
    notes: Seq<FrameNote>,
    k: int,
) -> bool {
    &&& 0 <= nexts[k] < g.succs(nodes[k]).len()
    &&& g.succs(nodes[k])[nexts[k]] == nodes[k + 1]
    &&& !notes[k + 1].entry.seen(nodes[k + 1])
}

/// What holds of the frames of a traversal: each is in order, and each
/// frame but the last waits for the frame above it.
pub open spec fn frames_ok(
    g: &DiGraph,
    nodes: Seq<usize>,
    nexts: Seq<int>,
    notes: Seq<FrameNote>,
    now: TraversalState,
) -> bool {
    &&& nodes.len() == notes.len()
    &&& nexts.len() == notes.len()
    &&& forall|k: int| 0 <= k < notes.len() ==> #[trigger] frame_at_ok(g, nodes, nexts, notes, now, k)
    &&& forall|k: int| 0 <= k < notes.len() - 1 ==> #[trigger] frame_waits(g, nodes, nexts, notes, k)
}

/// The nodes of the frames.
spec fn frame_nodes(frames: Seq<Frame>) -> Seq<usize> {
    Seq::new(frames.len(), |k: int| frames[k].node)
}

/// The positions that the frames have come to.
spec fn frame_nexts(frames: Seq<Frame>) -> Seq<int> {
    Seq::new(frames.len(), |k: int| frames[k].next as int)
}

/// The number of successors of the node of each frame.
spec fn frame_totals(g: &DiGraph, frames: Seq<Frame>) -> Seq<int> {
    Seq::new(frames.len(), |k: int| g.succs(frames[k].node).len() as int)
}

/// Gives the unseen node `v` the next index and puts it on the stack.
fn visit(g: &DiGraph, t: &mut Traversal, v: usize)
    requires
        g.wf(),
        old(t)@.inv(g),
        g.has_node(v),
        !old(t)@.seen(v),
        forall|i: int| 0 <= i < old(t)@.stack.len() ==> reaches(g, #[trigger] old(t)@.stack[i], v),
    ensures
        final(t)@ == old(t)@.visit(v),
{
    let ghost entry = t@;
    proof {
        lemma_scan_start(g, entry, v);
        lemma_inv_facts(g, entry);
        g.lemma_wf();
    }
    t.indices[v] = t.index;
    t.lowlink[v] = t.index;
    t.index = t.index + 1;
    t.stack.push(v);
    t.on_stack[v] = true;
    assert(t@.components =~= entry.components);
}

/// Traverses on from the unseen node `root`: gives every node that it
/// reaches an index, follows the edges, and closes a component wherever a
/// node turns out to be the first of one. The nodes whose successors are
/// being looked at are kept as frames, the one in hand last.
fn strongconnect(g: &DiGraph, t: &mut Traversal, root: usize) -> (low_at: Ghost<int>)
    requires
        g.wf(),
        old(t)@.inv(g),
        g.has_node(root),
        !old(t)@.seen(root),
        forall|i: int|
            0 <= i < old(t)@.stack.len() ==> reaches(g, #[trigger] old(t)@.stack[i], root),
    ensures
        final(t)@.inv(g),
        final(t)@.seen(root),
        old(t)@.index < final(t)@.index,
        advanced(g, old(t)@, final(t)@),
        settled(g, old(t)@, final(t)@, root, low_at@),
{
    let ghost entry = t@;
    let mut frames: Vec<Frame> = Vec::new();
    proof {
        lemma_scan_start(g, entry, root);
    }
    visit(g, t, root);
    frames.push(Frame { node: root, next: 0 });
    let ghost first = FrameNote { entry, low: entry.stack.len() as int };
    let ghost mut notes: Seq<FrameNote> = Seq::empty().push(first);
    let ghost mut low_root: int = 0;
    proof {
        g.lemma_wf();
        assert(frame_nodes(frames@) =~= Seq::empty().push(root));
        assert(frame_nexts(frames@) =~= Seq::empty().push(0int));
        lemma_frame_make(g, root, 0, first, t@);
        assert(shown_to(notes, 0, t@) == t@);
        assert(frame_at_ok(g, frame_nodes(frames@), frame_nexts(frames@), notes, t@, 0));
    }
    while frames.len() > 0
        invariant
            g.wf(),
            g.has_node(root),
            entry == old(t)@,
            entry.inv(g),
            !entry.seen(root),
            frames@.len() > 0 ==> frames_ok(g, frame_nodes(frames@), frame_nexts(frames@), notes, t@),
            frames@.len() > 0 ==> notes[0].entry == entry && frames@[0].node == root,
            frames@.len() == 0 ==> t@.inv(g) && t@.seen(root) && entry.index < t@.index && advanced(
                g,
                entry,
                t@,
            ) && settled(g, entry, t@, root, low_root),
        decreases g.spec_len() - t@.index, work_left(frame_totals(g, frames@), frame_nexts(frames@)),
    {
        let top = frames.len() - 1;
        let v = frames[top].node;
        let i = frames[top].next;
        let ghost before = t@;
        let ghost held = frames@;
        let ghost nodes = frame_nodes(frames@);
        let ghost nexts = frame_nexts(frames@);
        let ghost note = notes[top as int];
        let ghost at = note.entry.stack.len() as int;
        proof {
            g.lemma_wf();
            assert(frame_at_ok(g, nodes, nexts, notes, before, top as int));
            lemma_frame_read(g, v, i as int, note, before);
            lemma_inv_facts(g, before);
            lemma_index_bound(g, before);
            lemma_frames_work(g, held, notes, before);
        }
        let succ = g.successors_slice(v);
        if i < succ.len() {
            let w = succ[i];
            proof {
                assert(g.has_node(g.succs(v)[i as int]));
            }
            if t.indices[w] == usize::MAX {
                proof {
                    assert(g.has_edge(v, w));
                    lemma_reaches_edge(g, v, w);
                    assert forall|k: int| 0 <= k < before.stack.len() implies reaches(
                        g,
                        #[trigger] before.stack[k],
                        w,
                    ) by {
                        lemma_reaches_trans(g, before.stack[k], v, w);
                    }
                    lemma_scan_start(g, before, w);
                }
                visit(g, t, w);
                frames.push(Frame { node: w, next: 0 });
                proof {
                    let kept = notes;
                    let fresh = FrameNote { entry: before, low: before.stack.len() as int };
                    notes = notes.push(fresh);
                    assert(frame_nodes(frames@) =~= nodes.push(w));
                    assert(frame_nexts(frames@) =~= nexts.push(0int));
                    lemma_visit(g, before, w);
                    lemma_frame_make(g, w, 0, fresh, t@);
                    lemma_frames_push(g, nodes, nexts, kept, before, w, fresh, t@);
                    lemma_index_bound(g, t@);
                }
            } else {
                if t.on_stack[w] {
                    let reached = t.indices[w];
                    if reached < t.lowlink[v] {
                        t.lowlink[v] = reached;
                    }
                }
                frames[top].next = i + 1;
                proof {
                    let low2 = if before.on_stack[w as int] {
                        lemma_scan_back(g, before, v, at, i as int, note.low)
                    } else {
                        lemma_scan_skip(g, before, v, at, i as int, note.low);
                        note.low
                    };
                    let x = if before.on_stack[w as int] && before.indices[w as int]
                        < before.lowlink[v as int] {
                        before.indices[w as int]
                    } else {
                        before.lowlink[v as int]
                    };
                    assert(t@.lowlink =~= with_lowlink(before, v, x).lowlink);
                    assert(t@.components =~= before.components);
                    assert(t@ == with_lowlink(before, v, x));
                    if !before.on_stack[w as int] {
                        assert(t@ == before);
                    }
                    lemma_advanced_same(g, before);
                    lemma_advanced_on(g, note.entry, before, before, t@, v);
                    let kept = notes;
                    let moved = FrameNote { entry: note.entry, low: low2 };
                    notes = notes.update(top as int, moved);
                    assert(frame_nodes(frames@) =~= nodes);
                    assert(frame_nexts(frames@) =~= nexts.update(top as int, i + 1));
                    lemma_frame_make(g, v, i + 1, moved, t@);
                    lemma_frames_step(g, nodes, nexts, kept, before, t@, i + 1, moved);
                    assert(frame_totals(g, frames@) =~= frame_totals(g, held));
                    lemma_work_step(frame_totals(g, held), nexts);
                    lemma_frames_work(g, frames@, notes, t@);
                }
            }
        } else {
            proof {
                lemma_scan_end(g, before, v, at, note.low);
            }
            let ghost low_v = note.low;
            if t.lowlink[v] == t.indices[v] {
                close_component(g, t, v, Ghost(at));
                let ghost closed = t@;
                t.done = Ghost(t.done@.update(v as int, true));
                proof {
                    assert(t@.components =~= closed.components);
                    assert(t@ == closed.finish(v));
                    lemma_close(g, before, at, closed);
                    lemma_settled_closed(g, note.entry, before, closed, t@, v);
                    low_v = 0;
                }
            } else {
                t.done = Ghost(t.done@.update(v as int, true));
                proof {
                    assert(t@.components =~= before.components);
                    assert(t@ == before.finish(v));
                    lemma_finish(g, before, v);
                    lemma_settled_open(g, note.entry, before, t@, v, note.low);
                }
            }
            let ghost after = t@;
            let reached = t.lowlink[v];
            frames.pop();
            proof {
                lemma_inv_facts(g, after);
                assert(after.seen(v)) by {
                    assert(before.stack[at] == v);
                    assert(before.seen(before.stack[at]));
                    assert(after.indices[v as int] == before.indices[v as int]);
                }
            }
            if frames.len() > 0 {
                let below = frames.len() - 1;
                let p = frames[below].node;
                let ghost parent = notes[below as int];
                let ghost ip = nexts[below as int];
                proof {
                    assert(frame_at_ok(g, nodes, nexts, notes, before, below as int));
                    assert(frame_waits(g, nodes, nexts, notes, below as int));
                    assert(notes[below as int + 1] == note);
                    assert(nodes[below as int + 1] == v);
                    assert(shown_to(notes, below as int, before) == note.entry);
                    lemma_frame_read(g, p, ip, parent, note.entry);
                    lemma_inv_facts(g, note.entry);
                }
                if reached < t.lowlink[p] {
                    t.lowlink[p] = reached;
                }
                frames[below].next = frames[below].next + 1;
                proof {
                    let low2 = lemma_scan_descend(
                        g,
                        note.entry,
                        after,
                        p,
                        parent.entry.stack.len() as int,
                        ip,
                        parent.low,
                        low_v,
                    );
                    let x = if after.lowlink[v as int] < after.lowlink[p as int] {
                        after.lowlink[v as int]
                    } else {
                        after.lowlink[p as int]
                    };
                    assert(t@.lowlink =~= with_lowlink(after, p, x).lowlink);
                    assert(t@.components =~= after.components);
                    assert(t@ == with_lowlink(after, p, x));
                    lemma_lowlink_free(g, after, t@);
                    lemma_advanced_on(g, parent.entry, note.entry, after, t@, p);
                    let kept = notes;
                    let moved = FrameNote { entry: parent.entry, low: low2 };
                    notes = notes.drop_last().update(below as int, moved);
                    assert(frame_nodes(frames@) =~= nodes.drop_last());
                    assert(frame_nexts(frames@) =~= nexts.drop_last().update(below as int, ip + 1));
                    lemma_frame_make(g, p, ip + 1, moved, t@);
                    lemma_frames_pop(g, nodes, nexts, kept, before, t@, moved);
                    assert(frame_totals(g, frames@) =~= frame_totals(g, held).drop_last());
                    lemma_work_pop(frame_totals(g, held), nexts);
                    lemma_frames_work(g, frames@, notes, t@);
                }
            } else {
                proof {
                    notes = notes.drop_last();
                    low_root = low_v;
                    assert(note.entry == entry);
                    assert(v == root);
                }
            }
        }
    }
    Ghost(low_root)
}

/// A state relates to itself as a later state to an earlier one.
proof fn lemma_advanced_same(g: &DiGraph, st: TraversalState)
    ensures
        advanced(g, st, st),
{
    reveal(advanced);
}

/// The next index is at most the number of nodes.
proof fn lemma_index_bound(g: &DiGraph, st: TraversalState)
    requires
        st.inv(g),
    ensures
        st.index <= g.spec_len(),
{
    lemma_inv_facts(g, st);
    lemma_count_true_bound(st.seen_flags());
}

/// What a frame in order says.
proof fn lemma_frame_read(
    g: &DiGraph,
    node: usize,
    next: int,
    note: FrameNote,
    shown: TraversalState,
)
    requires
        frame_ok(g, node, next, note, shown),
    ensures
        note.entry.inv(g),
        g.has_node(node),
        !note.entry.seen(node),
        0 <= next <= g.succs(node).len(),
        scan_ok(g, shown, node, note.entry.stack.len() as int, next, note.low),
        advanced(g, note.entry, shown),
        note.entry.index < shown.index,
        shown.inv(g),
        note.entry.stack.len() < shown.stack.len(),
        shown.stack[note.entry.stack.len() as int] == node,
        shown.seen(node),
        forall|k: int| 0 <= k < shown.stack.len() ==> reaches(g, #[trigger] shown.stack[k], node),
{
    reveal(frame_ok);
    reveal(scan_ok);
    lemma_inv_facts(g, shown);
    assert(shown.seen(shown.stack[note.entry.stack.len() as int]));
}

/// What it takes for a frame to be in order.
proof fn lemma_frame_make(
    g: &DiGraph,
    node: usize,
    next: int,
    note: FrameNote,
    shown: TraversalState,
)
    requires
        note.entry.inv(g),
        g.has_node(node),
        !note.entry.seen(node),
        0 <= next <= g.succs(node).len(),
        scan_ok(g, shown, node, note.entry.stack.len() as int, next, note.low),
        advanced(g, note.entry, shown),
        note.entry.index < shown.index,
    ensures
        frame_ok(g, node, next, note, shown),
{
    reveal(frame_ok);
}

/// The frames stay in order when the traversal of an unseen successor of
/// the node in hand begins.
proof fn lemma_frames_push(
    g: &DiGraph,
    nodes: Seq<usize>,
    nexts: Seq<int>,
    notes: Seq<FrameNote>,
    before: TraversalState,
    w: usize,
    note: FrameNote,
    now: TraversalState,
)
    requires
        notes.len() > 0,
        frames_ok(g, nodes, nexts, notes, before),
        0 <= nexts.last() < g.succs(nodes.last()).len(),
        g.succs(nodes.last())[nexts.last()] == w,
        !before.seen(w),
        note.entry == before,
        frame_ok(g, w, 0, note, now),
    ensures
        frames_ok(g, nodes.push(w), nexts.push(0int), notes.push(note), now),
{
    let nodes2 = nodes.push(w);
    let nexts2 = nexts.push(0int);
    let notes2 = notes.push(note);
    let top = notes.len() as int;
    assert forall|k: int| 0 <= k < notes2.len() implies #[trigger] frame_at_ok(
        g,
        nodes2,
        nexts2,
        notes2,
        now,
        k,
    ) by {
        if k < top {
            assert(frame_at_ok(g, nodes, nexts, notes, before, k));
            assert(shown_to(notes2, k, now) == shown_to(notes, k, before));
        }
    }
    assert forall|k: int| 0 <= k < notes2.len() - 1 implies #[trigger] frame_waits(
        g,
        nodes2,
        nexts2,
        notes2,
        k,
    ) by {
        if k + 1 < top {
            assert(frame_waits(g, nodes, nexts, notes, k));
        }
    }
}

/// The frames stay in order when the node in hand has dealt with one more
/// successor.
proof fn lemma_frames_step(
    g: &DiGraph,
    nodes: Seq<usize>,
    nexts: Seq<int>,
    notes: Seq<FrameNote>,
    before: TraversalState,
    now: TraversalState,
    next: int,
    note: FrameNote,
)
    requires
        notes.len() > 0,
        frames_ok(g, nodes, nexts, notes, before),
        note.entry == notes.last().entry,
        frame_ok(g, nodes.last(), next, note, now),
    ensures
        frames_ok(
            g,
            nodes,
            nexts.update(nexts.len() - 1, next),
            notes.update(notes.len() - 1, note),
            now,
        ),
{
    let top = notes.len() - 1;
    let nexts2 = nexts.update(top, next);
    let notes2 = notes.update(top, note);
    assert forall|k: int| 0 <= k < notes2.len() implies #[trigger] frame_at_ok(
        g,
        nodes,
        nexts2,
        notes2,
        now,
        k,
    ) by {
        if k < top {
            assert(frame_at_ok(g, nodes, nexts, notes, before, k));
            assert(shown_to(notes2, k, now) == shown_to(notes, k, before));
        }
    }
    assert forall|k: int| 0 <= k < notes2.len() - 1 implies #[trigger] frame_waits(
        g,
        nodes,
        nexts2,
        notes2,
        k,
    ) by {
        assert(frame_waits(g, nodes, nexts, notes, k));
    }
}

/// The frames stay in order when the node in hand is done and the node
/// below it goes on from its next successor.
proof fn lemma_frames_pop(
    g: &DiGraph,
    nodes: Seq<usize>,
    nexts: Seq<int>,
    notes: Seq<FrameNote>,
    before: TraversalState,
    now: TraversalState,
    note: FrameNote,
)
    requires
        notes.len() > 1,
        frames_ok(g, nodes, nexts, notes, before),
        note.entry == notes[notes.len() - 2].entry,
        frame_ok(g, nodes[nodes.len() - 2], nexts[nexts.len() - 2] + 1, note, now),
    ensures
        frames_ok(
            g,
            nodes.drop_last(),
            nexts.drop_last().update(nexts.len() - 2, nexts[nexts.len() - 2] + 1),
            notes.drop_last().update(notes.len() - 2, note),
            now,
        ),
{
    let below = notes.len() - 2;
    let nodes2 = nodes.drop_last();
    let nexts2 = nexts.drop_last().update(below, nexts[below] + 1);
    let notes2 = notes.drop_last().update(below, note);
    assert forall|k: int| 0 <= k < notes2.len() implies #[trigger] frame_at_ok(
        g,
        nodes2,
        nexts2,
        notes2,
        now,
        k,
    ) by {
        if k < below {
            assert(frame_at_ok(g, nodes, nexts, notes, before, k));
            assert(shown_to(notes2, k, now) == shown_to(notes, k, before));
        }
    }
    assert forall|k: int| 0 <= k < notes2.len() - 1 implies #[trigger] frame_waits(
        g,
        nodes2,
        nexts2,
        notes2,
        k,
    ) by {
        assert(frame_waits(g, nodes, nexts, notes, k));
    }
}

/// Frames that are in order stand for work: each at least for itself.
proof fn lemma_frames_work(g: &DiGraph, frames: Seq<Frame>, notes: Seq<FrameNote>, now: TraversalState)
    requires
        frames_ok(g, frame_nodes(frames), frame_nexts(frames), notes, now),
    ensures
        work_left(frame_totals(g, frames), frame_nexts(frames)) >= frames.len(),
{
    assert forall|k: int| 0 <= k < frames.len() implies 0 <= #[trigger] frame_nexts(frames)[k]
        <= frame_totals(g, frames)[k] by {
        assert(frame_at_ok(g, frame_nodes(frames), frame_nexts(frames), notes, now, k));
        reveal(frame_ok);
    }
    lemma_work_bounded(frame_totals(g, frames), frame_nexts(frames));
}

/// A traversal that began with an empty stack ends with an empty stack,
/// and what was seen before it is seen after it.
proof fn lemma_root_done(
    g: &DiGraph,
    before: TraversalState,
    after: TraversalState,
    root: usize,
    low: int,
)
    requires
        before.stack.len() == 0,
        after.inv(g),
        advanced(g, before, after),
        settled(g, before, after, root, low),
    ensures
        after.stack.len() == 0,
        forall|u: usize| g.has_node(u) && before.seen(u) ==> after.seen(u),
{
    reveal(advanced);
    reveal(settled);
    assert forall|u: usize| g.has_node(u) && before.seen(u) implies after.seen(u) by {
        assert(after.indices[u as int] == before.indices[u as int]);
    }
}

/// A traversal that has seen nothing satisfies the invariant.
proof fn lemma_initial(g: &DiGraph, st: TraversalState)
    requires
        st.sized(g.spec_len()),
        st.index == 0,
        st.stack.len() == 0,
        st.components.len() == 0,
        forall|i: int| 0 <= i < st.indices.len() ==> #[trigger] st.indices[i] == unseen(),
        forall|i: int| 0 <= i < st.on_stack.len() ==> !#[trigger] st.on_stack[i],
        forall|i: int| 0 <= i < st.done.len() ==> !#[trigger] st.done[i],
    ensures
        st.inv(g),
{
    reveal(TraversalState::inv);
    crate::counting::lemma_count_true_none(st.seen_flags());
}

/// When every node has been seen and the stack is empty, the closed
/// components are the classes of mutual reachability.
proof fn lemma_final(g: &DiGraph, st: TraversalState)
    requires
        st.inv(g),
        st.stack.len() == 0,
        forall|v: usize| g.has_node(v) ==> st.seen(v),
    ensures
        is_partition(g, st.components),
        are_classes(g, st.components),
        callees_first(g, st.components),
{
    reveal(TraversalState::inv);
    assert forall|v: usize| g.has_node(v) implies exists|k: int|
        0 <= k < st.components.len() && (#[trigger] st.components[k]).contains(v) by {
        if st.on_stack[v as int] {
            assert(st.stack.contains(v));
        }
    }
}

/// A vector of `n` copies of `x`.
fn filled(n: usize, x: usize) -> (v: Vec<usize>)
    ensures
        v@.len() == n,
        forall|i: int| 0 <= i < n ==> v@[i] == x,
{
    let mut v: Vec<usize> = Vec::new();
    let mut i: usize = 0;
    while i < n
        invariant
            i <= n,
            v@.len() == i,
            forall|k: int| 0 <= k < i ==> v@[k] == x,
        decreases n - i,
    {
        v.push(x);
        i += 1;
    }
    v
}

/// A vector of `n` cleared flags.
fn cleared(n: usize) -> (v: Vec<bool>)
    ensures
        v@.len() == n,
        forall|i: int| 0 <= i < n ==> !v@[i],
{
    let mut v: Vec<bool> = Vec::new();
    let mut i: usize = 0;
    while i < n
        invariant
            i <= n,
            v@.len() == i,
            forall|k: int| 0 <= k < i ==> !v@[k],
        decreases n - i,
    {
        v.push(false);
        i += 1;
    }
    v
}

/// Traverses the graph from every node that an earlier traversal has not
/// seen, and returns the components in the order in which they were closed.
pub(crate) fn components_of(graph: &DiGraph) -> (components: Vec<Vec<usize>>)
    requires
        graph.wf(),
    ensures
        is_partition(graph, part_views(components@)),
        are_classes(graph, part_views(components@)),
        callees_first(graph, part_views(components@)),
{
    let n = graph.len();
    let mut t = Traversal {
        index: 0,
        indices: filled(n, usize::MAX),
        lowlink: filled(n, usize::MAX),
        on_stack: cleared(n),
        stack: Vec::new(),
        components: Vec::new(),
        done: Ghost(Seq::new(n as nat, |i: int| false)),
    };
    proof {
        lemma_initial(graph, t@);
    }
    let mut v: usize = 0;
    while v < n
        invariant
            graph.wf(),
            n == graph.spec_len(),
            v <= n,
            t@.inv(graph),
            t@.stack.len() == 0,
            forall|u: usize| u < v ==> t@.seen(u),
        decreases n - v,
    {
        proof {
            lemma_inv_facts(graph, t@);
        }
        if t.indices[v] == usize::MAX {
            let ghost before = t@;
            let Ghost(low) = strongconnect(graph, &mut t, v);
            proof {
                lemma_inv_facts(graph, t@);
                lemma_root_done(graph, before, t@, v, low);
            }
        }
        v += 1;
    }
    proof {
        lemma_final(graph, t@);
        assert(part_views(t.components@) =~= t@.components);
    }
    t.components
}

} // verus!
