//! Bounded enumeration of the elementary cycles of a graph.
//!
//! Each node in turn is taken as the start, and only nodes that are not
//! smaller than the start are looked at, so that every cycle is listed
//! from its smallest node. What is listed is what a depth-first walk along
//! the edges in insertion order finds, cut at the cap.
//!
//! The other cycle analyses, the strongly connected components and the
//! ranking of edges to remove, can be reached from here too.

pub use crate::algorithms::cycle_break::{
    cycle_break_suggestions, quick_cycle_break_edges, CycleBreakItem, CycleBreakResult,
};
use crate::algorithms::cycle_search::{circuit, new_search, reset};
pub use crate::algorithms::scc::{has_cycles, tarjan_scc, SCCResult};
use crate::counting::{lemma_count_true_bound, lemma_distinct_set_positions};
use crate::graph::DiGraph;
use crate::walks::{is_anchored_cycle, is_walk};
use vstd::prelude::*;

verus! {

/// Whether `path` is a walk from `start` through nodes that are not smaller
/// than `start`, none of them visited twice.
pub open spec fn is_path_from(g: &DiGraph, path: Seq<usize>, start: usize) -> bool {
    &&& path.len() > 0
    &&& path[0] == start
    &&& forall|i: int| 0 <= i < path.len() ==> start <= #[trigger] path[i] && g.has_node(path[i])
    &&& path.no_duplicates()
    &&& forall|i: int| 0 <= i < path.len() - 1 ==> g.has_edge(#[trigger] path[i], path[i + 1])
}

/// The cycles that begin with `path` and go on along one of the first `upto`
/// edges that leave its last node, in the order of a depth-first walk: the
/// edges are taken in insertion order, and all cycles along one edge come
/// before those along the next. Nodes smaller than `start` are left out, so
/// that each cycle is written from its smallest node.
pub open spec fn cycles_on(g: &DiGraph, path: Seq<usize>, start: usize, upto: nat) -> Seq<Seq<usize>>
    decreases g.spec_len() - path.len(), upto,
{
    if upto == 0 || path.len() == 0 {
        Seq::empty()
    } else {
        let w = g.succs(path.last())[upto - 1];
        let earlier = cycles_on(g, path, start, (upto - 1) as nat);
        if w == start {
            earlier.push(path)
        } else if w > start && !path.contains(w) && path.len() < g.spec_len() {
            earlier + cycles_on(g, path.push(w), start, g.succs(w).len())
        } else {
            earlier
        }
    }
}

/// The cycles written from the first `upto` nodes, in the order of a
/// depth-first walk from each of them in turn.
pub open spec fn cycles_from_first(g: &DiGraph, upto: nat) -> Seq<Seq<usize>>
    decreases upto,
{
    if upto == 0 {
        Seq::empty()
    } else {
        let start = (upto - 1) as usize;
        cycles_from_first(g, (upto - 1) as nat) + cycles_on(
            g,
            Seq::empty().push(start),
            start,
            g.succs(start).len(),
        )
    }
}

/// The first `max` items of `s`, or all of them where there are fewer.
pub open spec fn cut(s: Seq<Seq<usize>>, max: usize) -> Seq<Seq<usize>> {
    if max <= s.len() {
        s.take(max as int)
    } else {
        s
    }
}

/// All elementary cycles of `g` in depth-first order, cut at `max`.
pub open spec fn listing(g: &DiGraph, max: usize) -> Seq<Seq<usize>> {
    cut(cycles_from_first(g, g.spec_len()), max)
}

/// The listed cycles as sequences of nodes.
pub open spec fn cycle_views(cycles: Seq<Vec<usize>>) -> Seq<Seq<usize>> {
    Seq::new(cycles.len(), |k: int| cycles[k]@)
}

/// Whether `cycles` is a listing of cycles of `g` under the cap `max`: at
/// most `max` elementary cycles, each written from its smallest node, those
/// through smaller nodes first; and where there are fewer than `max`, every
/// elementary cycle of `g` is among them.
pub open spec fn is_listing(g: &DiGraph, cycles: Seq<Seq<usize>>, max: usize) -> bool {
    &&& cycles.len() <= max
    &&& forall|k: int| 0 <= k < cycles.len() ==> is_anchored_cycle(g, #[trigger] cycles[k])
    &&& forall|j: int, k: int|
        0 <= j <= k < cycles.len() ==> (#[trigger] cycles[j])[0] <= (#[trigger] cycles[k])[0]
    &&& cycles.len() < max ==> forall|c: Seq<usize>|
        #[trigger] is_anchored_cycle(g, c) ==> cycles.contains(c)
}

/// Whether `c` is a cycle written from its smallest node that begins with
/// the nodes of `prefix`.
pub open spec fn closes_through(g: &DiGraph, c: Seq<usize>, prefix: Seq<usize>) -> bool {
    &&& is_anchored_cycle(g, c)
    &&& prefix.len() <= c.len()
    &&& c.subrange(0, prefix.len() as int) == prefix
}

/// Taking more edges only adds cycles at the end.
pub proof fn lemma_cycles_on_extends(g: &DiGraph, path: Seq<usize>, start: usize, a: nat, b: nat)
    requires
        a <= b,
    ensures
        cycles_on(g, path, start, a).len() <= cycles_on(g, path, start, b).len(),
        cycles_on(g, path, start, b).subrange(0, cycles_on(g, path, start, a).len() as int)
            == cycles_on(g, path, start, a),
    decreases b,
{
    let ca = cycles_on(g, path, start, a);
    let cb = cycles_on(g, path, start, b);
    if a == b {
        assert(cb.subrange(0, ca.len() as int) =~= ca);
    } else if path.len() == 0 {
        assert(cb.subrange(0, ca.len() as int) =~= ca);
    } else {
        lemma_cycles_on_extends(g, path, start, a, (b - 1) as nat);
        let earlier = cycles_on(g, path, start, (b - 1) as nat);
        assert(cb.subrange(0, earlier.len() as int) =~= earlier);
        assert(cb.subrange(0, ca.len() as int) =~= earlier.subrange(0, ca.len() as int));
    }
}

/// Taking more start nodes only adds cycles at the end.
pub proof fn lemma_cycles_from_extends(g: &DiGraph, a: nat, b: nat)
    requires
        a <= b,
    ensures
        cycles_from_first(g, a).len() <= cycles_from_first(g, b).len(),
        cycles_from_first(g, b).subrange(0, cycles_from_first(g, a).len() as int)
            == cycles_from_first(g, a),
    decreases b,
{
    let ca = cycles_from_first(g, a);
    let cb = cycles_from_first(g, b);
    if a == b {
        assert(cb.subrange(0, ca.len() as int) =~= ca);
    } else {
        lemma_cycles_from_extends(g, a, (b - 1) as nat);
        let earlier = cycles_from_first(g, (b - 1) as nat);
        assert(cb.subrange(0, earlier.len() as int) =~= earlier);
        assert(cb.subrange(0, ca.len() as int) =~= earlier.subrange(0, ca.len() as int));
    }
}

/// A list that has reached the cap is the cut of every list that it begins.
pub proof fn lemma_cut_of_longer(short: Seq<Seq<usize>>, long: Seq<Seq<usize>>, max: usize)
    requires
        short.len() <= long.len(),
        long.subrange(0, short.len() as int) == short,
        short.len() >= max,
    ensures
        cut(long, max) == cut(short, max),
{
    assert(long.take(max as int) =~= short.take(max as int));
}

/// A path that can go on to a node that it does not hold is shorter than
/// the graph has nodes.
pub proof fn lemma_path_is_short(g: &DiGraph, path: Seq<usize>, w: usize)
    requires
        g.has_node(w),
        path.no_duplicates(),
        forall|i: int| 0 <= i < path.len() ==> g.has_node(#[trigger] path[i]),
        !path.contains(w),
    ensures
        path.len() < g.spec_len(),
{
    let flags = Seq::new(g.spec_len(), |i: int| true);
    let longer = path.push(w);
    assert forall|i: int| 0 <= i < longer.len() implies (#[trigger] longer[i]) < flags.len() && flags[longer[i] as int] by {
        if i < path.len() {
            assert(longer[i] == path[i]);
        }
    }
    lemma_distinct_set_positions(flags, longer);
    lemma_count_true_bound(flags);
}

/// A path that goes on along an edge to a node that it does not hold, not
/// smaller than its start, is a path.
pub proof fn lemma_path_push(g: &DiGraph, path: Seq<usize>, start: usize, w: usize)
    requires
        is_path_from(g, path, start),
        g.has_edge(path.last(), w),
        start <= w,
        !path.contains(w),
    ensures
        is_path_from(g, path.push(w), start),
{
    let longer = path.push(w);
    assert forall|i: int| 0 <= i < longer.len() - 1 implies g.has_edge(
        #[trigger] longer[i],
        longer[i + 1],
    ) by {
        if i + 1 < path.len() {
            assert(g.has_edge(path[i], path[i + 1]));
        }
    }
}

/// A path has no more nodes than the graph.
pub proof fn lemma_path_fits(g: &DiGraph, path: Seq<usize>, start: usize)
    requires
        is_path_from(g, path, start),
    ensures
        path.len() <= g.spec_len(),
{
    let front = path.drop_last();
    let last = path.last();
    assert(path[path.len() - 1] == last);
    assert(!front.contains(last)) by {
        if front.contains(last) {
            let i = choose|i: int| 0 <= i < front.len() && front[i] == last;
            assert(path[i] == last);
        }
    }
    assert forall|i: int| 0 <= i < front.len() implies g.has_node(#[trigger] front[i]) by {
        assert(front[i] == path[i]);
    }
    assert(front.no_duplicates()) by {
        assert forall|i: int, j: int|
            0 <= i < front.len() && 0 <= j < front.len() && i != j implies front[i] != front[j] by {
            assert(front[i] == path[i] && front[j] == path[j]);
        }
    }
    lemma_path_is_short(g, front, last);
}

/// Every cycle that the depth-first walk lists for a path is an elementary
/// cycle written from `start` that begins with the path.
pub proof fn lemma_cycles_on_sound(g: &DiGraph, path: Seq<usize>, start: usize, upto: nat, k: int)
    requires
        g.wf(),
        is_path_from(g, path, start),
        upto <= g.succs(path.last()).len(),
        0 <= k < cycles_on(g, path, start, upto).len(),
    ensures
        closes_through(g, cycles_on(g, path, start, upto)[k], path),
        cycles_on(g, path, start, upto)[k][0] == start,
    decreases g.spec_len() - path.len(), upto,
{
    g.lemma_wf();
    let w = g.succs(path.last())[upto - 1];
    let earlier = cycles_on(g, path, start, (upto - 1) as nat);
    assert(g.has_node(w));
    assert(g.succs(path.last()).contains(w));
    let all = cycles_on(g, path, start, upto);
    if k < earlier.len() {
        lemma_cycles_on_sound(g, path, start, (upto - 1) as nat, k);
        assert(all[k] == earlier[k]);
    } else if w == start {
        assert(all[k] == path);
        assert(is_walk(g, path));
        assert(g.has_edge(path.last(), path[0]));
        assert(path.subrange(0, path.len() as int) =~= path);
    } else {
        assert(w > start && !path.contains(w) && path.len() < g.spec_len());
        lemma_path_push(g, path, start, w);
        let longer = path.push(w);
        let deeper = cycles_on(g, longer, start, g.succs(w).len());
        lemma_cycles_on_sound(g, longer, start, g.succs(w).len(), k - earlier.len());
        let c = deeper[k - earlier.len()];
        assert(all[k] == c);
        assert(c.subrange(0, path.len() as int) =~= c.subrange(
            0,
            longer.len() as int,
        ).subrange(0, path.len() as int));
        assert(longer.subrange(0, path.len() as int) =~= path);
    }
}

/// The depth-first walk along the path that the first `m` nodes of a cycle
/// make lists the cycle.
pub proof fn lemma_cycles_on_complete(g: &DiGraph, c: Seq<usize>, m: int)
    requires
        g.wf(),
        is_anchored_cycle(g, c),
        1 <= m <= c.len(),
    ensures
        cycles_on(g, c.subrange(0, m), c[0], g.succs(c[m - 1]).len()).contains(c),
    decreases c.len() - m,
{
    g.lemma_wf();
    let start = c[0];
    let path = c.subrange(0, m);
    let last = c[m - 1];
    let all = g.succs(last).len();
    assert(path.last() == last);
    if m == c.len() {
        assert(path =~= c);
        assert(g.has_edge(c.last(), c[0]));
        let j = choose|j: int| 0 <= j < g.succs(last).len() && g.succs(last)[j] == start;
        let here = cycles_on(g, path, start, (j + 1) as nat);
        assert(here[here.len() - 1] == c);
        lemma_cycles_on_extends(g, path, start, (j + 1) as nat, all);
        assert(cycles_on(g, path, start, all).subrange(0, here.len() as int)[here.len() - 1] == c);
    } else {
        let w = c[m];
        assert(g.has_edge(c[m - 1], c[m - 1 + 1]));
        let j = choose|j: int| 0 <= j < g.succs(last).len() && g.succs(last)[j] == w;
        assert(c[0] <= c[m]);
        assert(!path.contains(w)) by {
            if path.contains(w) {
                let i = choose|i: int| 0 <= i < path.len() && path[i] == w;
                assert(c[i] == c[m]);
            }
        }
        assert forall|i: int| 0 <= i < path.len() implies g.has_node(#[trigger] path[i]) by {
            assert(path[i] == c[i]);
        }
        lemma_path_is_short(g, path, w);
        let longer = c.subrange(0, m + 1);
        assert(path.push(w) =~= longer);
        lemma_cycles_on_complete(g, c, m + 1);
        let sub = cycles_on(g, longer, start, g.succs(w).len());
        let k = choose|k: int| 0 <= k < sub.len() && sub[k] == c;
        let before = cycles_on(g, path, start, j as nat);
        let here = cycles_on(g, path, start, (j + 1) as nat);
        assert(here == before + sub);
        assert(here[before.len() + k] == c);
        lemma_cycles_on_extends(g, path, start, (j + 1) as nat, all);
        assert(cycles_on(g, path, start, all).subrange(0, here.len() as int)[before.len() + k] == c);
    }
}

/// The cycles written from the first `upto` nodes are elementary cycles,
/// each written from its smallest node, which is one of those nodes; the
/// cycles through smaller nodes come first.
pub proof fn lemma_cycles_from_sound(g: &DiGraph, upto: nat)
    requires
        g.wf(),
        upto <= g.spec_len(),
    ensures
        forall|k: int|
            0 <= k < cycles_from_first(g, upto).len() ==> is_anchored_cycle(
                g,
                #[trigger] cycles_from_first(g, upto)[k],
            ) && cycles_from_first(g, upto)[k][0] < upto,
        forall|j: int, k: int|
            0 <= j <= k < cycles_from_first(g, upto).len() ==> (#[trigger] cycles_from_first(
                g,
                upto,
            )[j])[0] <= (#[trigger] cycles_from_first(g, upto)[k])[0],
    decreases upto,
{
    g.lemma_wf();
    if upto > 0 {
        let start = (upto - 1) as usize;
        let rest = cycles_from_first(g, (upto - 1) as nat);
        let first = Seq::<usize>::empty().push(start);
        let here = cycles_on(g, first, start, g.succs(start).len());
        let all = cycles_from_first(g, upto);
        lemma_cycles_from_sound(g, (upto - 1) as nat);
        assert(is_path_from(g, first, start));
        assert forall|k: int| 0 <= k < all.len() implies is_anchored_cycle(g, #[trigger] all[k])
            && all[k][0] < upto && (k >= rest.len() ==> all[k][0] == start) by {
            if k < rest.len() {
                assert(all[k] == rest[k]);
            } else {
                assert(all[k] == here[k - rest.len()]);
                lemma_cycles_on_sound(g, first, start, g.succs(start).len(), k - rest.len());
            }
        }
        assert forall|j: int, k: int| 0 <= j <= k < all.len() implies (#[trigger] all[j])[0] <= (
        #[trigger] all[k])[0] by {
            if k < rest.len() {
                assert(all[j] == rest[j] && all[k] == rest[k]);
            } else if j < rest.len() {
                assert(all[j] == rest[j]);
                assert(rest[j][0] < upto - 1);
            }
        }
    }
}

/// Every elementary cycle written from its smallest node is among the
/// cycles written from all nodes.
pub proof fn lemma_cycles_from_complete(g: &DiGraph, c: Seq<usize>)
    requires
        g.wf(),
        is_anchored_cycle(g, c),
    ensures
        cycles_from_first(g, g.spec_len()).contains(c),
{
    g.lemma_wf();
    let start = c[0];
    assert(g.has_node(c[0]));
    lemma_cycles_on_complete(g, c, 1);
    let first = Seq::<usize>::empty().push(start);
    assert(c.subrange(0, 1) =~= first);
    let here = cycles_on(g, first, start, g.succs(start).len());
    let k = choose|k: int| 0 <= k < here.len() && here[k] == c;
    let upto = (start + 1) as nat;
    let rest = cycles_from_first(g, start as nat);
    let some = cycles_from_first(g, upto);
    assert(some == rest + here);
    assert(some[rest.len() + k] == c);
    lemma_cycles_from_extends(g, upto, g.spec_len());
    let all = cycles_from_first(g, g.spec_len());
    assert(all.subrange(0, some.len() as int)[rest.len() + k] == c);
}

/// The depth-first listing under a cap is a listing: it holds elementary
/// cycles only, each written from its smallest node, those through smaller
/// nodes first, and all of them where the cap is not reached.
pub proof fn lemma_listing(g: &DiGraph, max: usize)
    requires
        g.wf(),
    ensures
        is_listing(g, listing(g, max), max),
{
    let all = cycles_from_first(g, g.spec_len());
    let cs = listing(g, max);
    lemma_cycles_from_sound(g, g.spec_len());
    assert forall|k: int| 0 <= k < cs.len() implies is_anchored_cycle(g, #[trigger] cs[k]) by {
        assert(cs[k] == all[k]);
    }
    assert forall|j: int, k: int| 0 <= j <= k < cs.len() implies (#[trigger] cs[j])[0] <= (
    #[trigger] cs[k])[0] by {
        assert(cs[j] == all[j] && cs[k] == all[k]);
    }
    if cs.len() < max {
        assert forall|c: Seq<usize>| #[trigger] is_anchored_cycle(g, c) implies cs.contains(c) by {
            lemma_cycles_from_complete(g, c);
        }
    }
}

/// Lists elementary cycles of `graph`, at most `max_cycles` of them: the
/// first `max_cycles` in the order of a depth-first walk that starts from
/// each node in turn and follows edges in insertion order. Each cycle is
/// written from its smallest node and closed by the edge from its last node
/// back to its first; the cycles through smaller nodes come first. Where
/// fewer than `max_cycles` come back, they are all the graph has. A cycle
/// along parallel edges is listed once for each way to walk it.
pub fn enumerate_cycles(graph: &DiGraph, max_cycles: usize) -> (cycles: Vec<Vec<usize>>)
    ensures
        cycle_views(cycles@) == listing(graph, max_cycles),
        is_listing(graph, cycle_views(cycles@), max_cycles),
        graph.spec_len() == 0 || max_cycles == 0 ==> cycles@.len() == 0,
{
    proof {
        use_type_invariant(graph);
    }
    let n = graph.len();
    let mut cycles: Vec<Vec<usize>> = Vec::new();
    proof {
        lemma_listing(graph, max_cycles);
    }
    if n == 0 || max_cycles == 0 {
        proof {
            assert(cycle_views(cycles@) =~= listing(graph, max_cycles));
        }
        return cycles;
    }
    let mut s = new_search(n);
    let mut start: usize = 0;
    proof {
        assert(cycle_views(cycles@) =~= cycles_from_first(graph, 0));
    }
    while start < n && cycles.len() < max_cycles
        invariant
            graph.wf(),
            n == graph.spec_len(),
            start <= n,
            cycles@.len() <= max_cycles,
            cycles@.len() < max_cycles ==> cycle_views(cycles@) == cycles_from_first(
                graph,
                start as nat,
            ),
            cycles@.len() >= max_cycles ==> cycle_views(cycles@) == listing(graph, max_cycles),
            s@.blocked.len() == n,
            s@.waiting.len() == n,
            s@.stack.len() == 0,
        decreases n - start,
    {
        reset(graph, &mut s, Ghost(start));
        circuit(graph, &mut s, &mut cycles, start, max_cycles);
        proof {
            let so_far = cycles_from_first(graph, (start + 1) as nat);
            assert(cycle_views(cycles@) == cut(so_far, max_cycles));
            if cycles@.len() >= max_cycles {
                lemma_cycles_from_extends(graph, (start + 1) as nat, graph.spec_len());
                lemma_cut_of_longer(so_far, cycles_from_first(graph, graph.spec_len()), max_cycles);
            }
        }
        start += 1;
    }
    cycles
}

/// The cycles that an enumeration found, with what it says of the cap.
pub struct CycleEnumerationResult {
    /// The cycles found.
    pub cycles: Vec<Vec<usize>>,
    /// Whether as many cycles were found as the cap allows, so that more may exist.
    pub truncated: bool,
    /// The number of cycles found.
    pub count: usize,
}

/// Lists elementary cycles as `enumerate_cycles` does and reports whether
/// the cap was reached.
pub fn enumerate_cycles_with_info(graph: &DiGraph, max_cycles: usize) -> (r: CycleEnumerationResult)
    ensures
        cycle_views(r.cycles@) == listing(graph, max_cycles),
        is_listing(graph, cycle_views(r.cycles@), max_cycles),
        r.count == r.cycles@.len(),
        r.truncated == (r.count >= max_cycles),
{
    let cycles = enumerate_cycles(graph, max_cycles);
    let count = cycles.len();
    CycleEnumerationResult { cycles, truncated: count >= max_cycles, count }
}

} // verus!
