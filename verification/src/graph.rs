//! The graph store: a directed multigraph over dense node indices.

use vstd::prelude::*;

verus! {

/// A directed graph whose nodes are the indices `0..len()`, handed out in
/// insertion order. Parallel edges and self-loops are kept as they are added.
pub struct DiGraph {
    ids: Vec<String>,
    succ: Vec<Vec<usize>>,
    pred: Vec<Vec<usize>>,
    edges: usize,
}

/// Adjacency lists as plain sequences.
spec fn rows(lists: Seq<Vec<usize>>) -> Seq<Seq<usize>> {
    Seq::new(lists.len(), |i: int| lists[i]@)
}

/// Whether `succ` and `pred` are the two adjacency views of one set of
/// `edges` edges among `n` nodes: both list the same edges, every endpoint
/// is a node, and degrees can be added without overflow.
spec fn store_ok(n: nat, succ: Seq<Seq<usize>>, pred: Seq<Seq<usize>>, edges: usize) -> bool {
    &&& succ.len() == n
    &&& pred.len() == n
    &&& edges <= usize::MAX / 2
    &&& forall|v: int| 0 <= v < n ==> (#[trigger] succ[v]).len() <= edges
    &&& forall|v: int| 0 <= v < n ==> (#[trigger] pred[v]).len() <= edges
    &&& forall|u: int, i: int| 0 <= u < n && 0 <= i < succ[u].len() ==> (#[trigger] succ[u][i]) < n
    &&& forall|v: int, i: int| 0 <= v < n && 0 <= i < pred[v].len() ==> (#[trigger] pred[v][i]) < n
    &&& forall|u: usize, v: usize|
        u < n && v < n ==> #[trigger] succ[u as int].to_multiset().count(v) == #[trigger] pred[v as int].to_multiset().count(
            u,
        )
}

/// Puts a node with the identifier `id` and no edges behind the others.
fn grow(
    ids: &mut Vec<String>,
    succ: &mut Vec<Vec<usize>>,
    pred: &mut Vec<Vec<usize>>,
    edges: usize,
    id: &str,
)
    requires
        store_ok(old(ids)@.len(), rows(old(succ)@), rows(old(pred)@), edges),
    ensures
        store_ok(final(ids)@.len(), rows(final(succ)@), rows(final(pred)@), edges),
        final(ids)@.len() == old(ids)@.len() + 1,
        final(ids)@.last()@ == id@,
        forall|k: int| 0 <= k < old(ids)@.len() ==> #[trigger] final(ids)@[k] == old(ids)@[k],
        rows(final(succ)@) == rows(old(succ)@).push(Seq::empty()),
        rows(final(pred)@) == rows(old(pred)@).push(Seq::empty()),
{
    let ghost n = ids@.len();
    let ghost succ0 = rows(succ@);
    let ghost pred0 = rows(pred@);
    ids.push(id.to_owned());
    succ.push(Vec::new());
    pred.push(Vec::new());
    proof {
        broadcast use vstd::seq_lib::to_multiset_contains;

        let succ1 = rows(succ@);
        let pred1 = rows(pred@);
        assert(succ1 =~= succ0.push(Seq::empty()));
        assert(pred1 =~= pred0.push(Seq::empty()));
        assert forall|u: int, i: int| 0 <= u < n + 1 && 0 <= i < succ1[u].len() implies (
        #[trigger] succ1[u][i]) < n + 1 by {
            assert(succ0[u][i] < n);
        }
        assert forall|v: int, i: int| 0 <= v < n + 1 && 0 <= i < pred1[v].len() implies (
        #[trigger] pred1[v][i]) < n + 1 by {
            assert(pred0[v][i] < n);
        }
        assert forall|u: usize, v: usize| u < n + 1 && v < n + 1 implies #[trigger] succ1[u as int].to_multiset().count(
            v,
        ) == #[trigger] pred1[v as int].to_multiset().count(u) by {
            if u < n && v < n {
                assert(succ0[u as int].to_multiset().count(v) == pred0[v as int].to_multiset().count(u));
            } else if u < n {
                if succ0[u as int].contains(v) {
                    let i = choose|i: int| 0 <= i < succ0[u as int].len() && succ0[u as int][i] == v;
                    assert(succ0[u as int][i] < n);
                }
                assert(!pred1[v as int].contains(u));
            } else if v < n {
                if pred0[v as int].contains(u) {
                    let i = choose|i: int| 0 <= i < pred0[v as int].len() && pred0[v as int][i] == u;
                    assert(pred0[v as int][i] < n);
                }
                assert(!succ1[u as int].contains(v));
            } else {
                assert(!succ1[u as int].contains(v));
                assert(!pred1[v as int].contains(u));
            }
        }
    }
}

/// Puts one edge from `from` to `to` into both adjacency views.
fn link(
    succ: &mut Vec<Vec<usize>>,
    pred: &mut Vec<Vec<usize>>,
    edges: &mut usize,
    from: usize,
    to: usize,
)
    requires
        store_ok(old(succ)@.len() as nat, rows(old(succ)@), rows(old(pred)@), *old(edges)),
        from < old(succ)@.len(),
        to < old(succ)@.len(),
        *old(edges) < usize::MAX / 2,
    ensures
        store_ok(old(succ)@.len() as nat, rows(final(succ)@), rows(final(pred)@), *final(edges)),
        *final(edges) == *old(edges) + 1,
        rows(final(succ)@) == rows(old(succ)@).update(
            from as int,
            rows(old(succ)@)[from as int].push(to),
        ),
        rows(final(pred)@) == rows(old(pred)@).update(
            to as int,
            rows(old(pred)@)[to as int].push(from),
        ),
{
    let ghost n = succ@.len();
    let ghost succ0 = rows(succ@);
    let ghost pred0 = rows(pred@);
    succ[from].push(to);
    pred[to].push(from);
    *edges = *edges + 1;
    proof {
        broadcast use vstd::seq_lib::to_multiset_build;

        let succ1 = rows(succ@);
        let pred1 = rows(pred@);
        assert(succ1 =~= succ0.update(from as int, succ0[from as int].push(to)));
        assert(pred1 =~= pred0.update(to as int, pred0[to as int].push(from)));
        assert forall|v: int| 0 <= v < n implies (#[trigger] succ1[v]).len() <= *edges by {
            assert(succ0[v].len() <= *edges - 1);
        }
        assert forall|v: int| 0 <= v < n implies (#[trigger] pred1[v]).len() <= *edges by {
            assert(pred0[v].len() <= *edges - 1);
        }
        assert forall|u: int, i: int| 0 <= u < n && 0 <= i < succ1[u].len() implies (
        #[trigger] succ1[u][i]) < n by {
            if i < succ0[u].len() {
                assert(succ0[u][i] < n);
            }
        }
        assert forall|v: int, i: int| 0 <= v < n && 0 <= i < pred1[v].len() implies (
        #[trigger] pred1[v][i]) < n by {
            if i < pred0[v].len() {
                assert(pred0[v][i] < n);
            }
        }
        assert forall|u: usize, v: usize| u < n && v < n implies #[trigger] succ1[u as int].to_multiset().count(
            v,
        ) == #[trigger] pred1[v as int].to_multiset().count(u) by {
            assert(succ0[u as int].to_multiset().count(v) == pred0[v as int].to_multiset().count(u));
        }
    }
}

impl DiGraph {
    /// The number of nodes.
    pub closed spec fn spec_len(&self) -> nat {
        self.succ@.len()
    }

    /// The number of edges, each parallel edge counted.
    pub closed spec fn edge_total(&self) -> nat {
        self.edges as nat
    }

    /// The targets of the edges that leave `v`, in insertion order.
    pub closed spec fn succs(&self, v: usize) -> Seq<usize> {
        self.succ@[v as int]@
    }

    /// The sources of the edges that enter `v`, in insertion order.
    pub closed spec fn preds(&self, v: usize) -> Seq<usize> {
        self.pred@[v as int]@
    }

    /// The identifier that node `v` was added under.
    pub closed spec fn id_of(&self, v: usize) -> Seq<char> {
        self.ids@[v as int]@
    }

    /// Whether `v` is a node of the graph.
    pub open spec fn has_node(&self, v: usize) -> bool {
        v < self.spec_len()
    }

    /// Whether at least one edge leads from `u` to `v`.
    pub open spec fn has_edge(&self, u: usize, v: usize) -> bool {
        self.has_node(u) && self.has_node(v) && self.succs(u).contains(v)
    }

    /// How many parallel edges lead from `u` to `v`, counted at their source.
    pub open spec fn edge_count(&self, u: usize, v: usize) -> nat {
        self.succs(u).to_multiset().count(v)
    }

    /// How many parallel edges lead from `u` to `v`, counted at their target.
    pub open spec fn edge_count_rev(&self, u: usize, v: usize) -> nat {
        self.preds(v).to_multiset().count(u)
    }

    /// What holds of every graph: both adjacency views list the same edges,
    /// every endpoint is a node, and degrees can be added without overflow.
    #[verifier::type_invariant]
    pub closed spec fn wf(&self) -> bool {
        store_ok(self.ids@.len(), rows(self.succ@), rows(self.pred@), self.edges)
    }

    /// What well-formedness gives to a reader of the two adjacency views.
    pub proof fn lemma_wf(&self)
        requires
            self.wf(),
        ensures
            self.spec_len() <= usize::MAX,
            self.edge_total() <= usize::MAX / 2,
            forall|u: usize, i: int|
                self.has_node(u) && 0 <= i < self.succs(u).len() ==> self.has_node(
                    #[trigger] self.succs(u)[i],
                ),
            forall|v: usize, i: int|
                self.has_node(v) && 0 <= i < self.preds(v).len() ==> self.has_node(
                    #[trigger] self.preds(v)[i],
                ),
            forall|u: usize, v: usize|
                self.has_node(u) && self.has_node(v) ==> #[trigger] self.edge_count(u, v)
                    == self.edge_count_rev(u, v),
            forall|u: usize| self.has_node(u) ==> (#[trigger] self.succs(u)).len() <= self.edge_total(),
            forall|u: usize| self.has_node(u) ==> (#[trigger] self.preds(u)).len() <= self.edge_total(),
    {
        assert(self.succ@.len() == self.succ.len());
        let succ = rows(self.succ@);
        let pred = rows(self.pred@);
        assert forall|u: usize, i: int|
            self.has_node(u) && 0 <= i < self.succs(u).len() implies self.has_node(
            #[trigger] self.succs(u)[i],
        ) by {
            assert(succ[u as int][i] < self.spec_len());
        }
        assert forall|v: usize, i: int|
            self.has_node(v) && 0 <= i < self.preds(v).len() implies self.has_node(
            #[trigger] self.preds(v)[i],
        ) by {
            assert(pred[v as int][i] < self.spec_len());
        }
        assert forall|u: usize, v: usize|
            self.has_node(u) && self.has_node(v) implies #[trigger] self.edge_count(u, v)
            == self.edge_count_rev(u, v) by {
            assert(succ[u as int].to_multiset().count(v) == pred[v as int].to_multiset().count(u));
        }
        assert forall|u: usize| self.has_node(u) implies (#[trigger] self.succs(u)).len()
            <= self.edge_total() by {
            assert(succ[u as int].len() <= self.edges);
        }
        assert forall|u: usize| self.has_node(u) implies (#[trigger] self.preds(u)).len()
            <= self.edge_total() by {
            assert(pred[u as int].len() <= self.edges);
        }
    }

    /// An edge is seen from its target exactly when it is seen from its source.
    pub proof fn lemma_edge_both_views(&self, u: usize, v: usize)
        requires
            self.wf(),
            self.has_node(u),
            self.has_node(v),
        ensures
            self.has_edge(u, v) <==> self.preds(v).contains(u),
    {
        broadcast use vstd::seq_lib::to_multiset_contains;

        self.lemma_wf();
        assert(self.edge_count(u, v) == self.edge_count_rev(u, v));
    }

    /// An empty graph.
    pub fn new() -> (g: DiGraph)
        ensures
            g.spec_len() == 0,
            g.edge_total() == 0,
    {
        DiGraph { ids: Vec::new(), succ: Vec::new(), pred: Vec::new(), edges: 0 }
    }

    /// The number of nodes.
    pub fn len(&self) -> (n: usize)
        ensures
            n == self.spec_len(),
    {
        self.succ.len()
    }

    /// Whether the graph has no node.
    pub fn is_empty(&self) -> (b: bool)
        ensures
            b == (self.spec_len() == 0),
    {
        self.succ.len() == 0
    }

    /// The number of edges.
    pub fn edge_len(&self) -> (m: usize)
        ensures
            m == self.edge_total(),
            m <= usize::MAX / 2,
    {
        proof {
            use_type_invariant(self);
        }
        self.edges
    }

    /// Adds a node under the identifier `id` and returns its index, which is
    /// the number of nodes that were there before.
    pub fn add_node(&mut self, id: &str) -> (v: usize)
        ensures
            v == old(self).spec_len(),
            final(self).spec_len() == old(self).spec_len() + 1,
            final(self).edge_total() == old(self).edge_total(),
            final(self).id_of(v) == id@,
            final(self).succs(v) == Seq::<usize>::empty(),
            final(self).preds(v) == Seq::<usize>::empty(),
            forall|u: usize|
                old(self).has_node(u) ==> #[trigger] final(self).succs(u) == old(self).succs(u),
            forall|u: usize|
                old(self).has_node(u) ==> #[trigger] final(self).preds(u) == old(self).preds(u),
            forall|u: usize|
                old(self).has_node(u) ==> #[trigger] final(self).id_of(u) == old(self).id_of(u),
    {
        proof {
            use_type_invariant(&*self);
        }
        let v = self.succ.len();
        let ghost ids0 = self.ids@;
        let ghost succ0 = rows(self.succ@);
        let ghost pred0 = rows(self.pred@);
        let mut taken = DiGraph::new();
        std::mem::swap(self, &mut taken);
        let DiGraph { mut ids, mut succ, mut pred, edges } = taken;
        grow(&mut ids, &mut succ, &mut pred, edges, id);
        *self = DiGraph { ids, succ, pred, edges };
        proof {
            assert forall|u: usize| old(self).has_node(u) implies #[trigger] self.succs(u) == old(
                self,
            ).succs(u) by {
                assert(rows(self.succ@)[u as int] == succ0[u as int]);
            }
            assert forall|u: usize| old(self).has_node(u) implies #[trigger] self.preds(u) == old(
                self,
            ).preds(u) by {
                assert(rows(self.pred@)[u as int] == pred0[u as int]);
            }
            assert forall|u: usize| old(self).has_node(u) implies #[trigger] self.id_of(u) == old(
                self,
            ).id_of(u) by {
                assert(self.ids@[u as int] == ids0[u as int]);
            }
            assert(rows(self.succ@)[v as int] == Seq::<usize>::empty());
            assert(rows(self.pred@)[v as int] == Seq::<usize>::empty());
        }
        v
    }

    /// Adds one edge from `from` to `to`; an edge that is already there gets a
    /// parallel one.
    pub fn add_edge(&mut self, from: usize, to: usize)
        requires
            old(self).has_node(from),
            old(self).has_node(to),
            old(self).edge_total() < usize::MAX / 2,
        ensures
            final(self).spec_len() == old(self).spec_len(),
            final(self).edge_total() == old(self).edge_total() + 1,
            final(self).succs(from) == old(self).succs(from).push(to),
            final(self).preds(to) == old(self).preds(to).push(from),
            forall|u: usize|
                old(self).has_node(u) && u != from ==> #[trigger] final(self).succs(u) == old(
                    self,
                ).succs(u),
            forall|u: usize|
                old(self).has_node(u) && u != to ==> #[trigger] final(self).preds(u) == old(
                    self,
                ).preds(u),
            forall|u: usize|
                old(self).has_node(u) ==> #[trigger] final(self).id_of(u) == old(self).id_of(u),
    {
        proof {
            use_type_invariant(&*self);
        }
        let ghost succ0 = rows(self.succ@);
        let ghost pred0 = rows(self.pred@);
        let mut taken = DiGraph::new();
        std::mem::swap(self, &mut taken);
        let DiGraph { ids, mut succ, mut pred, mut edges } = taken;
        link(&mut succ, &mut pred, &mut edges, from, to);
        *self = DiGraph { ids, succ, pred, edges };
        proof {
            assert(rows(self.succ@)[from as int] == succ0[from as int].push(to));
            assert(rows(self.pred@)[to as int] == pred0[to as int].push(from));
            assert forall|u: usize| old(self).has_node(u) && u != from implies #[trigger] self.succs(
                u,
            ) == old(self).succs(u) by {
                assert(rows(self.succ@)[u as int] == succ0[u as int]);
            }
            assert forall|u: usize| old(self).has_node(u) && u != to implies #[trigger] self.preds(u)
                == old(self).preds(u) by {
                assert(rows(self.pred@)[u as int] == pred0[u as int]);
            }
        }
    }

    /// The targets of the edges that leave `v`, in insertion order.
    pub fn successors_slice(&self, v: usize) -> (s: &[usize])
        requires
            self.has_node(v),
        ensures
            s@ == self.succs(v),
    {
        self.succ[v].as_slice()
    }

    /// The sources of the edges that enter `v`, in insertion order.
    pub fn predecessors_slice(&self, v: usize) -> (s: &[usize])
        requires
            self.has_node(v),
        ensures
            s@ == self.preds(v),
    {
        proof {
            use_type_invariant(self);
        }
        self.pred[v].as_slice()
    }

    /// The identifier of node `v`, or nothing where `v` is no node.
    pub fn node_id(&self, v: usize) -> (id: Option<String>)
        ensures
            self.has_node(v) ==> id.is_some() && id.unwrap()@ == self.id_of(v),
            !self.has_node(v) ==> id.is_none(),
    {
        proof {
            use_type_invariant(self);
        }
        if v < self.ids.len() {
            Some(self.ids[v].clone())
        } else {
            None
        }
    }
}

} // verus!
