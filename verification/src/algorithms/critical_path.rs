//! Critical-path heights: for every node, the number of nodes on the
//! longest chain of edges that ends at it.

use crate::counting::{
    count_true, lemma_count_true_bound, lemma_count_true_set, lemma_count_true_shrinks,
    lemma_work_bounded, lemma_work_pop, lemma_work_step, work_left,
};
use crate::graph::DiGraph;
use crate::walks::{is_acyclic, is_closed_walk, is_walk, lemma_walk_push};
use vstd::prelude::*;

verus! {

/// Whether `w` is a chain of edges that ends at `v`.
pub open spec fn is_chain_to(g: &DiGraph, w: Seq<usize>, v: usize) -> bool {
    is_walk(g, w) && w.last() == v
}

/// Whether the longest chain that ends at `v` has `d` nodes.
pub open spec fn is_depth(g: &DiGraph, v: usize, d: nat) -> bool {
    &&& exists|w: Seq<usize>| #[trigger] is_chain_to(g, w, v) && w.len() == d
    &&& forall|w: Seq<usize>| #[trigger] is_chain_to(g, w, v) ==> w.len() <= d
}

/// The height of `v`: the number of nodes on the longest chain that ends at
/// `v`, so that a node without predecessors has height 1. Where the graph
/// has a cycle no chain is the longest, and every height is 0.
pub open spec fn depth(g: &DiGraph, v: usize) -> nat {
    if is_acyclic(g) {
        choose|d: nat| is_depth(g, v, d)
    } else {
        0
    }
}

/// The greatest of the heights `h` of the nodes `nodes`, 0 where there is none.
pub open spec fn highest(h: Seq<usize>, nodes: Seq<usize>) -> nat
    decreases nodes.len(),
{
    if nodes.len() == 0 {
        0
    } else {
        let rest = highest(h, nodes.drop_last());
        let last = h[nodes.last() as int] as nat;
        if last > rest {
            last
        } else {
            rest
        }
    }
}

/// The greatest height is not below any of the heights, and one of them
/// where it is not 0.
pub proof fn lemma_highest(h: Seq<usize>, nodes: Seq<usize>)
    ensures
        forall|j: int| 0 <= j < nodes.len() ==> h[#[trigger] nodes[j] as int] <= highest(h, nodes),
        highest(h, nodes) > 0 ==> exists|j: int|
            0 <= j < nodes.len() && h[#[trigger] nodes[j] as int] == highest(h, nodes),
    decreases nodes.len(),
{
    if nodes.len() > 0 {
        let front = nodes.drop_last();
        lemma_highest(h, front);
        assert forall|j: int| 0 <= j < nodes.len() implies h[#[trigger] nodes[j] as int] <= highest(
            h,
            nodes,
        ) by {
            if j < front.len() {
                assert(front[j] == nodes[j]);
            }
        }
        if highest(h, nodes) > 0 {
            if h[nodes.last() as int] as nat > highest(h, front) {
                assert(h[nodes[nodes.len() - 1] as int] == highest(h, nodes));
            } else {
                let j = choose|j: int|
                    0 <= j < front.len() && h[#[trigger] front[j] as int] == highest(h, front);
                assert(front[j] == nodes[j]);
            }
        }
    }
}

/// The greatest height depends only on the heights of the nodes it is
/// taken over.
pub proof fn lemma_highest_same(h1: Seq<usize>, h2: Seq<usize>, nodes: Seq<usize>)
    requires
        forall|j: int| 0 <= j < nodes.len() ==> h1[#[trigger] nodes[j] as int] == h2[nodes[j] as int],
    ensures
        highest(h1, nodes) == highest(h2, nodes),
    decreases nodes.len(),
{
    if nodes.len() > 0 {
        let front = nodes.drop_last();
        assert forall|j: int| 0 <= j < front.len() implies h1[#[trigger] front[j] as int] == h2[front[j] as int] by {
            assert(front[j] == nodes[j]);
        }
        lemma_highest_same(h1, h2, front);
        assert(h1[nodes[nodes.len() - 1] as int] == h2[nodes[nodes.len() - 1] as int]);
    }
}

/// Whether every node of the graph has a height in `h` that is one more
/// than the greatest height among its predecessors.
pub open spec fn is_layering(g: &DiGraph, h: Seq<usize>) -> bool {
    &&& h.len() == g.spec_len()
    &&& forall|v: usize| g.has_node(v) ==> #[trigger] h[v as int] == 1 + highest(h, g.preds(v))
}

/// Heights that grow along every edge leave no room for a closed walk.
pub proof fn lemma_layering_acyclic(g: &DiGraph, h: Seq<usize>)
    requires
        g.wf(),
        is_layering(g, h),
    ensures
        is_acyclic(g),
{
    assert forall|c: Seq<usize>| !is_closed_walk(g, c) by {
        if is_closed_walk(g, c) {
            lemma_climb(g, h, c, c.len() - 1);
            lemma_step_up(g, h, c.last(), c[0]);
        }
    }
}

/// Along an edge the height grows.
proof fn lemma_step_up(g: &DiGraph, h: Seq<usize>, u: usize, v: usize)
    requires
        g.wf(),
        is_layering(g, h),
        g.has_edge(u, v),
    ensures
        h[u as int] < h[v as int],
{
    g.lemma_edge_both_views(u, v);
    let j = choose|j: int| 0 <= j < g.preds(v).len() && g.preds(v)[j] == u;
    lemma_highest(h, g.preds(v));
    assert(h[g.preds(v)[j] as int] <= highest(h, g.preds(v)));
}

/// Along a walk the height grows by at least one with every step.
proof fn lemma_climb(g: &DiGraph, h: Seq<usize>, w: Seq<usize>, i: int)
    requires
        g.wf(),
        is_layering(g, h),
        is_walk(g, w),
        0 <= i < w.len(),
    ensures
        h[w[i] as int] >= h[w[0] as int] + i,
        h[w[i] as int] >= i + 1,
    decreases i,
{
    if i > 0 {
        lemma_climb(g, h, w, i - 1);
        assert(g.has_edge(w[i - 1], w[i - 1 + 1]));
        lemma_step_up(g, h, w[i - 1], w[i]);
    }
}

/// A chain of as many nodes as the height of `v` ends at `v`.
proof fn lemma_chain_exists(g: &DiGraph, h: Seq<usize>, v: usize) -> (w: Seq<usize>)
    requires
        g.wf(),
        is_layering(g, h),
        g.has_node(v),
    ensures
        is_chain_to(g, w, v),
        w.len() == h[v as int],
    decreases h[v as int],
{
    g.lemma_wf();
    lemma_highest(h, g.preds(v));
    if highest(h, g.preds(v)) == 0 {
        let w = seq![v];
        assert(is_walk(g, w));
        w
    } else {
        let j = choose|j: int|
            0 <= j < g.preds(v).len() && h[#[trigger] g.preds(v)[j] as int] == highest(h, g.preds(v));
        let u = g.preds(v)[j];
        assert(g.has_node(u));
        assert(g.preds(v).contains(u));
        g.lemma_edge_both_views(u, v);
        let w0 = lemma_chain_exists(g, h, u);
        lemma_walk_push(g, w0, v);
        w0.push(v)
    }
}

/// Where every node has a height that is one more than the greatest height
/// among its predecessors, that height is the number of nodes on the
/// longest chain that ends at the node.
pub proof fn lemma_layering_is_depth(g: &DiGraph, h: Seq<usize>, v: usize)
    requires
        g.wf(),
        is_layering(g, h),
        g.has_node(v),
    ensures
        is_acyclic(g),
        is_depth(g, v, h[v as int] as nat),
        depth(g, v) == h[v as int],
{
    lemma_layering_acyclic(g, h);
    let w = lemma_chain_exists(g, h, v);
    assert(is_chain_to(g, w, v) && w.len() == h[v as int]);
    assert forall|c: Seq<usize>| #[trigger] is_chain_to(g, c, v) implies c.len() <= h[v as int] by {
        lemma_climb(g, h, c, c.len() - 1);
    }
    assert(is_depth(g, v, h[v as int] as nat));
    let d = depth(g, v);
    assert(is_depth(g, v, d));
    let wd = choose|w: Seq<usize>| #[trigger] is_chain_to(g, w, v) && w.len() == d;
    assert(is_chain_to(g, wd, v));
    assert(is_chain_to(g, w, v));
}

/// The mark of a node that the search has not reached.
pub open spec fn fresh() -> u8 {
    0
}

/// The mark of a node whose predecessors are being looked at.
pub open spec fn open_mark() -> u8 {
    1
}

/// The mark of a node whose height is known.
pub open spec fn settled_mark() -> u8 {
    2
}

/// For each node, whether it carries the given mark.
pub open spec fn marked(marks: Seq<u8>, mark: u8) -> Seq<bool> {
    Seq::new(marks.len(), |i: int| marks[i] == mark)
}

/// What holds between two steps of the search for heights. The nodes with
/// the open mark are those of `path`, along which every node is a
/// predecessor of the one before it; a node with the settled mark has
/// settled predecessors only, and its height is one more than the greatest
/// of theirs.
pub open spec fn search_ok(g: &DiGraph, marks: Seq<u8>, h: Seq<usize>, path: Seq<usize>) -> bool {
    &&& marks.len() == g.spec_len()
    &&& h.len() == g.spec_len()
    &&& forall|v: usize| g.has_node(v) ==> #[trigger] marks[v as int] <= 2
    &&& forall|v: usize| g.has_node(v) && #[trigger] marks[v as int] == open_mark() ==> path.contains(v)
    &&& forall|i: int|
        0 <= i < path.len() ==> g.has_node(#[trigger] path[i]) && marks[path[i] as int] == open_mark()
    &&& forall|i: int| 0 <= i < path.len() - 1 ==> g.has_edge(path[i + 1], #[trigger] path[i])
    &&& forall|v: usize, j: int|
        g.has_node(v) && marks[v as int] == settled_mark() && 0 <= j < g.preds(v).len()
            ==> marks[#[trigger] g.preds(v)[j] as int] == settled_mark()
    &&& forall|v: usize|
        g.has_node(v) && #[trigger] marks[v as int] == settled_mark() ==> h[v as int] == 1
            + highest(h, g.preds(v))
    &&& forall|v: usize|
        g.has_node(v) && marks[v as int] == settled_mark() ==> #[trigger] h[v as int] <= count_true(
            marked(marks, settled_mark()),
        )
}

/// Whether the nodes that were settled keep their mark and their height.
pub open spec fn settled_kept(
    g: &DiGraph,
    m0: Seq<u8>,
    h0: Seq<usize>,
    m1: Seq<u8>,
    h1: Seq<usize>,
) -> bool {
    forall|v: usize|
        g.has_node(v) && #[trigger] m0[v as int] == settled_mark() ==> m1[v as int]
            == settled_mark() && h1[v as int] == h0[v as int]
}

/// An open predecessor of the last node of the path closes a walk.
proof fn lemma_path_cycle(g: &DiGraph, marks: Seq<u8>, h: Seq<usize>, path: Seq<usize>, u: usize)
    requires
        g.wf(),
        search_ok(g, marks, h, path),
        path.len() > 0,
        g.has_node(u),
        marks[u as int] == open_mark(),
        g.preds(path.last()).contains(u),
    ensures
        !is_acyclic(g),
{
    let v = path.last();
    g.lemma_edge_both_views(u, v);
    let i = choose|i: int| 0 <= i < path.len() && path[i] == u;
    let len = path.len() as int;
    let c = path.subrange(i, len).reverse();
    assert forall|m: int| 0 <= m < c.len() - 1 implies g.has_edge(#[trigger] c[m], c[m + 1]) by {
        assert(c[m] == path[len - 1 - m]);
        assert(c[m + 1] == path[len - 2 - m]);
        assert(g.has_edge(path[(len - 2 - m) + 1], path[len - 2 - m]));
    }
    assert(c[0] == v);
    assert(c.last() == u);
    assert(is_closed_walk(g, c));
}

/// A fresh predecessor of the last node of the path may be opened.
proof fn lemma_open(g: &DiGraph, marks: Seq<u8>, h: Seq<usize>, path: Seq<usize>, u: usize)
    requires
        g.wf(),
        search_ok(g, marks, h, path),
        g.has_node(u),
        marks[u as int] == fresh(),
        path.len() > 0 ==> g.preds(path.last()).contains(u),
        path.no_duplicates(),
    ensures
        search_ok(g, marks.update(u as int, open_mark()), h, path.push(u)),
        settled_kept(g, marks, h, marks.update(u as int, open_mark()), h),
        path.push(u).no_duplicates(),
        count_true(marked(marks.update(u as int, open_mark()), fresh())) < count_true(
            marked(marks, fresh()),
        ),
{
    g.lemma_wf();
    let m1 = marks.update(u as int, open_mark());
    let here = path.push(u);
    assert(marked(m1, fresh()) =~= marked(marks, fresh()).update(u as int, false));
    lemma_count_true_shrinks(marked(marks, fresh()), marked(m1, fresh()), u as int);
    assert(marked(m1, settled_mark()) =~= marked(marks, settled_mark()));
    if path.len() > 0 {
        g.lemma_edge_both_views(u, path.last());
    }
    assert(!path.contains(u)) by {
        if path.contains(u) {
            let i = choose|i: int| 0 <= i < path.len() && path[i] == u;
            assert(marks[path[i] as int] == open_mark());
        }
    }
    assert forall|x: usize| g.has_node(x) && #[trigger] m1[x as int] == open_mark() implies here.contains(
        x,
    ) by {
        if x == u {
            assert(here[path.len() as int] == u);
        } else {
            assert(path.contains(x));
            let i = choose|i: int| 0 <= i < path.len() && path[i] == x;
            assert(here[i] == x);
        }
    }
    assert forall|i: int| 0 <= i < here.len() - 1 implies g.has_edge(here[i + 1], #[trigger] here[i]) by {
        if i + 1 < path.len() {
            assert(g.has_edge(path[i + 1], path[i]));
        }
    }
    assert forall|x: usize|
        g.has_node(x) && #[trigger] m1[x as int] == settled_mark() implies h[x as int] == 1
        + highest(h, g.preds(x)) by {}
}

/// The last node of the path, all of whose predecessors are settled, may be
/// settled one above the highest of them.
proof fn lemma_settle(
    g: &DiGraph,
    marks: Seq<u8>,
    h: Seq<usize>,
    path: Seq<usize>,
    best: usize,
)
    requires
        g.wf(),
        search_ok(g, marks, h, path),
        path.len() > 0,
        path.no_duplicates(),
        forall|j: int|
            0 <= j < g.preds(path.last()).len() ==> marks[#[trigger] g.preds(path.last())[j] as int]
                == settled_mark(),
        best == highest(h, g.preds(path.last())),
    ensures
        best < g.spec_len(),
        search_ok(
            g,
            marks.update(path.last() as int, settled_mark()),
            h.update(path.last() as int, (best + 1) as usize),
            path.drop_last(),
        ),
        settled_kept(
            g,
            marks,
            h,
            marks.update(path.last() as int, settled_mark()),
            h.update(path.last() as int, (best + 1) as usize),
        ),
        marked(marks.update(path.last() as int, settled_mark()), fresh()) == marked(marks, fresh()),
{
    g.lemma_wf();
    let v = path.last();
    let rest = path.drop_last();
    let m3 = marks.update(v as int, settled_mark());
    let h3 = h.update(v as int, (best + 1) as usize);
    assert(path[path.len() - 1] == v);
    lemma_count_true_bound(marked(marks, settled_mark()).update(v as int, true));
    lemma_count_true_set(marked(marks, settled_mark()), v as int);
    lemma_highest(h, g.preds(v));
    if best > 0 {
        let k = choose|k: int|
            0 <= k < g.preds(v).len() && h[#[trigger] g.preds(v)[k] as int] == highest(
                h,
                g.preds(v),
            );
        assert(g.has_node(g.preds(v)[k]));
        assert(h[g.preds(v)[k] as int] <= count_true(marked(marks, settled_mark())));
    }
    assert(marked(m3, settled_mark()) =~= marked(marks, settled_mark()).update(v as int, true));
    assert(marked(m3, fresh()) =~= marked(marks, fresh()));
    assert forall|x: usize| g.has_node(x) && #[trigger] m3[x as int] == open_mark() implies rest.contains(
        x,
    ) by {
        assert(path.contains(x));
        let i = choose|i: int| 0 <= i < path.len() && path[i] == x;
        assert(rest[i] == x);
    }
    assert forall|i: int| 0 <= i < rest.len() implies g.has_node(#[trigger] rest[i]) && m3[rest[i] as int]
        == open_mark() by {
        assert(path[i] == rest[i]);
    }
    assert forall|i: int| 0 <= i < rest.len() - 1 implies g.has_edge(rest[i + 1], #[trigger] rest[i]) by {
        assert(g.has_edge(path[i + 1], path[i]));
    }
    assert forall|x: usize, k: int|
        g.has_node(x) && m3[x as int] == settled_mark() && 0 <= k < g.preds(x).len() implies m3[
        #[trigger] g.preds(x)[k] as int
    ] == settled_mark() by {
        if x != v {
            assert(marks[g.preds(x)[k] as int] == settled_mark());
        }
    }
    assert forall|x: usize|
        g.has_node(x) && #[trigger] m3[x as int] == settled_mark() implies h3[x as int] == 1
        + highest(h3, g.preds(x)) by {
        assert forall|k: int| 0 <= k < g.preds(x).len() implies h[#[trigger] g.preds(x)[k] as int]
            == h3[g.preds(x)[k] as int] by {
            if x != v {
                assert(marks[g.preds(x)[k] as int] == settled_mark());
            }
        }
        lemma_highest_same(h, h3, g.preds(x));
    }
    assert forall|x: usize|
        g.has_node(x) && m3[x as int] == settled_mark() implies #[trigger] h3[x as int]
        <= count_true(marked(m3, settled_mark())) by {
        if x != v {
            assert(h[x as int] <= count_true(marked(marks, settled_mark())));
        }
    }
}

/// A node whose predecessors are being looked at, with the position of the
/// predecessor that comes next and the highest height among those before.
struct Climb {
    node: usize,
    next: usize,
    best: usize,
}

/// Whether a frame is in order: the predecessors that it has passed are
/// settled, and it holds the highest of their heights.
pub open spec fn climb_ok(
    g: &DiGraph,
    marks: Seq<u8>,
    h: Seq<usize>,
    node: usize,
    next: int,
    best: usize,
) -> bool {
    &&& g.has_node(node)
    &&& 0 <= next <= g.preds(node).len()
    &&& forall|m: int| 0 <= m < next ==> marks[#[trigger] g.preds(node)[m] as int] == settled_mark()
    &&& best == highest(h, g.preds(node).subrange(0, next))
}

/// The nodes of the frames.
spec fn climb_nodes(frames: Seq<Climb>) -> Seq<usize> {
    Seq::new(frames.len(), |k: int| frames[k].node)
}

/// The positions that the frames have come to.
spec fn climb_nexts(frames: Seq<Climb>) -> Seq<int> {
    Seq::new(frames.len(), |k: int| frames[k].next as int)
}

/// The number of predecessors of the node of each frame.
spec fn climb_totals(g: &DiGraph, frames: Seq<Climb>) -> Seq<int> {
    Seq::new(frames.len(), |k: int| g.preds(frames[k].node).len() as int)
}

/// Whether the frame at position `k` is in order.
spec fn climb_at_ok(g: &DiGraph, marks: Seq<u8>, h: Seq<usize>, frames: Seq<Climb>, k: int) -> bool {
    climb_ok(g, marks, h, frames[k].node, frames[k].next as int, frames[k].best)
}

/// Whether the frame at position `k` waits for the frame above it, which
/// belongs to the predecessor that the frame has come to.
spec fn climb_waits(g: &DiGraph, frames: Seq<Climb>, k: int) -> bool {
    &&& frames[k].next < g.preds(frames[k].node).len()
    &&& g.preds(frames[k].node)[frames[k].next as int] == frames[k + 1].node
}

/// What holds of the frames of the search: each is in order, and each but
/// the last waits for the frame above it.
spec fn climbs_ok(g: &DiGraph, marks: Seq<u8>, h: Seq<usize>, frames: Seq<Climb>) -> bool {
    &&& forall|k: int| 0 <= k < frames.len() ==> #[trigger] climb_at_ok(g, marks, h, frames, k)
    &&& forall|k: int| 0 <= k < frames.len() - 1 ==> #[trigger] climb_waits(g, frames, k)
    &&& climb_nodes(frames).no_duplicates()
}

/// A frame that is in order stays so while the settled nodes keep their
/// mark and their height.
proof fn lemma_climb_stays(
    g: &DiGraph,
    m0: Seq<u8>,
    h0: Seq<usize>,
    m1: Seq<u8>,
    h1: Seq<usize>,
    node: usize,
    next: int,
    best: usize,
)
    requires
        g.wf(),
        climb_ok(g, m0, h0, node, next, best),
        settled_kept(g, m0, h0, m1, h1),
    ensures
        climb_ok(g, m1, h1, node, next, best),
{
    g.lemma_wf();
    let done = g.preds(node).subrange(0, next);
    assert forall|m: int| 0 <= m < next implies m1[#[trigger] g.preds(node)[m] as int]
        == settled_mark() by {
        assert(g.has_node(g.preds(node)[m]));
        assert(m0[g.preds(node)[m] as int] == settled_mark());
    }
    assert forall|j: int| 0 <= j < done.len() implies h0[#[trigger] done[j] as int] == h1[done[j] as int] by {
        assert(done[j] == g.preds(node)[j]);
        assert(g.has_node(g.preds(node)[j]));
        assert(m0[g.preds(node)[j] as int] == settled_mark());
    }
    lemma_highest_same(h0, h1, done);
}

/// A frame that has passed one more predecessor, a settled one, holds the
/// higher of its height and what it held.
proof fn lemma_climb_on(
    g: &DiGraph,
    marks: Seq<u8>,
    h: Seq<usize>,
    node: usize,
    next: int,
    best: usize,
)
    requires
        climb_ok(g, marks, h, node, next, best),
        next < g.preds(node).len(),
        marks[g.preds(node)[next] as int] == settled_mark(),
    ensures
        climb_ok(
            g,
            marks,
            h,
            node,
            next + 1,
            if h[g.preds(node)[next] as int] > best {
                h[g.preds(node)[next] as int]
            } else {
                best
            },
        ),
{
    let done = g.preds(node).subrange(0, next);
    let more = g.preds(node).subrange(0, next + 1);
    assert(more.drop_last() =~= done);
    assert(more.last() == g.preds(node)[next]);
}

/// Settles the height of the fresh node `root` and of every fresh node that
/// a chain to `root` passes, unless it meets a cycle: then it gives up and
/// returns `false`. The nodes whose predecessors are being looked at are
/// kept as frames, the one in hand last.
fn settle(g: &DiGraph, marks: &mut Vec<u8>, heights: &mut Vec<usize>, root: usize) -> (ok: bool)
    requires
        g.wf(),
        search_ok(g, old(marks)@, old(heights)@, Seq::empty()),
        g.has_node(root),
        old(marks)@[root as int] == fresh(),
    ensures
        final(marks)@.len() == g.spec_len(),
        final(heights)@.len() == g.spec_len(),
        !ok ==> !is_acyclic(g),
        ok ==> search_ok(g, final(marks)@, final(heights)@, Seq::empty()),
        ok ==> settled_kept(g, old(marks)@, old(heights)@, final(marks)@, final(heights)@),
        ok ==> final(marks)@[root as int] == settled_mark(),
{
    let ghost m0 = marks@;
    let ghost h0 = heights@;
    let mut frames: Vec<Climb> = Vec::new();
    proof {
        lemma_open(g, m0, h0, Seq::empty(), root);
    }
    marks[root] = 1;
    frames.push(Climb { node: root, next: 0, best: 0 });
    proof {
        assert(climb_nodes(frames@) =~= Seq::<usize>::empty().push(root));
        assert(g.preds(root).subrange(0, 0) =~= Seq::<usize>::empty());
        assert(climb_at_ok(g, marks@, heights@, frames@, 0));
    }
    while frames.len() > 0
        invariant
            g.wf(),
            g.has_node(root),
            m0 == old(marks)@,
            h0 == old(heights)@,
            m0[root as int] == fresh(),
            marks@.len() == g.spec_len(),
            heights@.len() == g.spec_len(),
            search_ok(g, marks@, heights@, climb_nodes(frames@)),
            climbs_ok(g, marks@, heights@, frames@),
            settled_kept(g, m0, h0, marks@, heights@),
            frames@.len() > 0 ==> frames@[0].node == root,
            frames@.len() == 0 ==> marks@[root as int] == settled_mark(),
        decreases
                count_true(marked(marks@, fresh())),
                work_left(climb_totals(g, frames@), climb_nexts(frames@)),
    {
        let top = frames.len() - 1;
        let v = frames[top].node;
        let j = frames[top].next;
        let best = frames[top].best;
        let ghost mb = marks@;
        let ghost hb = heights@;
        let ghost held = frames@;
        let ghost path = climb_nodes(held);
        proof {
            g.lemma_wf();
            assert(climb_at_ok(g, mb, hb, held, top as int));
            assert(path.last() == v);
            lemma_climbs_work(g, mb, hb, held);
        }
        let pred = g.predecessors_slice(v);
        if j < pred.len() {
            let u = pred[j];
            proof {
                assert(g.has_node(g.preds(v)[j as int]));
                assert(g.preds(v).contains(u));
            }
            if marks[u] == 1 {
                proof {
                    lemma_path_cycle(g, mb, hb, path, u);
                }
                return false;
            }
            if marks[u] == 0 {
                proof {
                    lemma_open(g, mb, hb, path, u);
                }
                marks[u] = 1;
                frames.push(Climb { node: u, next: 0, best: 0 });
                proof {
                    assert(climb_nodes(frames@) =~= path.push(u));
                    lemma_climbs_push(g, mb, hb, marks@, held, frames@);
                    lemma_kept_on(g, m0, h0, mb, hb, marks@, heights@);
                }
            } else {
                let hu = heights[u];
                let raised = if hu > best {
                    hu
                } else {
                    best
                };
                frames[top] = Climb { node: v, next: j + 1, best: raised };
                proof {
                    lemma_climb_on(g, mb, hb, v, j as int, best);
                    assert(climb_nodes(frames@) =~= path);
                    lemma_climbs_step(g, mb, hb, held, frames@);
                    assert(climb_totals(g, frames@) =~= climb_totals(g, held));
                    assert(climb_nexts(frames@) =~= climb_nexts(held).update(
                        top as int,
                        climb_nexts(held).last() + 1,
                    ));
                    lemma_work_step(climb_totals(g, held), climb_nexts(held));
                    lemma_climbs_work(g, marks@, heights@, frames@);
                }
            }
        } else {
            proof {
                assert(g.preds(v).subrange(0, j as int) =~= g.preds(v));
                lemma_settle(g, mb, hb, path, best);
            }
            let height = best + 1;
            heights[v] = height;
            marks[v] = 2;
            frames.pop();
            let ghost ms = marks@;
            let ghost hs = heights@;
            proof {
                assert(climb_nodes(frames@) =~= path.drop_last());
                lemma_kept_on(g, m0, h0, mb, hb, ms, hs);
            }
            if frames.len() > 0 {
                let below = frames.len() - 1;
                let p = frames[below].node;
                let jp = frames[below].next;
                let bp = frames[below].best;
                let raised = if height > bp {
                    height
                } else {
                    bp
                };
                proof {
                    assert(climb_at_ok(g, mb, hb, held, below as int));
                    assert(climb_waits(g, held, below as int));
                    lemma_climb_stays(g, mb, hb, ms, hs, p, jp as int, bp);
                    lemma_climb_on(g, ms, hs, p, jp as int, bp);
                }
                frames[below] = Climb { node: p, next: jp + 1, best: raised };
                proof {
                    assert(climb_nodes(frames@) =~= path.drop_last());
                    lemma_climbs_pop(g, mb, hb, ms, hs, held, frames@);
                    assert(climb_totals(g, frames@) =~= climb_totals(g, held).drop_last());
                    assert(climb_nexts(frames@) =~= climb_nexts(held).drop_last().update(
                        below as int,
                        climb_nexts(held)[below as int] + 1,
                    ));
                    lemma_work_pop(climb_totals(g, held), climb_nexts(held));
                    lemma_climbs_work(g, marks@, heights@, frames@);
                }
            } else {
                proof {
                    assert(v == root);
                }
            }
        }
    }
    proof {
        assert(climb_nodes(frames@) =~= Seq::<usize>::empty());
    }
    true
}

/// What was settled at first and kept until now is kept on.
proof fn lemma_kept_on(
    g: &DiGraph,
    m0: Seq<u8>,
    h0: Seq<usize>,
    m1: Seq<u8>,
    h1: Seq<usize>,
    m2: Seq<u8>,
    h2: Seq<usize>,
)
    requires
        settled_kept(g, m0, h0, m1, h1),
        settled_kept(g, m1, h1, m2, h2),
    ensures
        settled_kept(g, m0, h0, m2, h2),
{
    assert forall|v: usize| g.has_node(v) && #[trigger] m0[v as int] == settled_mark() implies m2[v as int]
        == settled_mark() && h2[v as int] == h0[v as int] by {
        assert(m1[v as int] == settled_mark());
    }
}

/// Frames that are in order stand for work: each at least for itself.
proof fn lemma_climbs_work(g: &DiGraph, marks: Seq<u8>, h: Seq<usize>, frames: Seq<Climb>)
    requires
        climbs_ok(g, marks, h, frames),
    ensures
        work_left(climb_totals(g, frames), climb_nexts(frames)) >= frames.len(),
{
    assert forall|k: int| 0 <= k < frames.len() implies 0 <= #[trigger] climb_nexts(frames)[k]
        <= climb_totals(g, frames)[k] by {
        assert(climb_at_ok(g, marks, h, frames, k));
    }
    lemma_work_bounded(climb_totals(g, frames), climb_nexts(frames));
}

/// The frames stay in order when a fresh predecessor of the node in hand
/// is opened.
proof fn lemma_climbs_push(
    g: &DiGraph,
    m0: Seq<u8>,
    h: Seq<usize>,
    m1: Seq<u8>,
    held: Seq<Climb>,
    frames: Seq<Climb>,
)
    requires
        g.wf(),
        held.len() > 0,
        climbs_ok(g, m0, h, held),
        settled_kept(g, m0, h, m1, h),
        frames.len() == held.len() + 1,
        forall|k: int| 0 <= k < held.len() ==> #[trigger] frames[k] == held[k],
        frames.last().next == 0,
        frames.last().best == 0,
        g.has_node(frames.last().node),
        held.last().next < g.preds(held.last().node).len(),
        g.preds(held.last().node)[held.last().next as int] == frames.last().node,
        climb_nodes(frames).no_duplicates(),
    ensures
        climbs_ok(g, m1, h, frames),
{
    let top = held.len() as int;
    assert forall|k: int| 0 <= k < frames.len() implies #[trigger] climb_at_ok(g, m1, h, frames, k) by {
        if k < top {
            assert(frames[k] == held[k]);
            assert(climb_at_ok(g, m0, h, held, k));
            lemma_climb_stays(g, m0, h, m1, h, held[k].node, held[k].next as int, held[k].best);
        } else {
            assert(g.preds(frames[k].node).subrange(0, 0) =~= Seq::<usize>::empty());
        }
    }
    assert forall|k: int| 0 <= k < frames.len() - 1 implies #[trigger] climb_waits(g, frames, k) by {
        assert(frames[k] == held[k]);
        if k + 1 < top {
            assert(frames[k + 1] == held[k + 1]);
            assert(climb_waits(g, held, k));
        }
    }
}

/// The frames stay in order when the node in hand has passed one more
/// predecessor.
proof fn lemma_climbs_step(
    g: &DiGraph,
    marks: Seq<u8>,
    h: Seq<usize>,
    held: Seq<Climb>,
    frames: Seq<Climb>,
)
    requires
        held.len() > 0,
        climbs_ok(g, marks, h, held),
        frames.len() == held.len(),
        forall|k: int| 0 <= k < held.len() - 1 ==> #[trigger] frames[k] == held[k],
        frames.last().node == held.last().node,
        climb_ok(g, marks, h, frames.last().node, frames.last().next as int, frames.last().best),
    ensures
        climbs_ok(g, marks, h, frames),
{
    let top = held.len() - 1;
    assert forall|k: int| 0 <= k < frames.len() implies #[trigger] climb_at_ok(g, marks, h, frames, k) by {
        if k < top {
            assert(frames[k] == held[k]);
            assert(climb_at_ok(g, marks, h, held, k));
        }
    }
    assert forall|k: int| 0 <= k < frames.len() - 1 implies #[trigger] climb_waits(g, frames, k) by {
        assert(frames[k] == held[k]);
        assert(climb_waits(g, held, k));
    }
    assert(climb_nodes(frames) =~= climb_nodes(held));
}

/// The frames stay in order when the node in hand is settled and the node
/// below it goes on from its next predecessor.
proof fn lemma_climbs_pop(
    g: &DiGraph,
    m0: Seq<u8>,
    h0: Seq<usize>,
    m1: Seq<u8>,
    h1: Seq<usize>,
    held: Seq<Climb>,
    frames: Seq<Climb>,
)
    requires
        g.wf(),
        held.len() > 1,
        climbs_ok(g, m0, h0, held),
        settled_kept(g, m0, h0, m1, h1),
        frames.len() == held.len() - 1,
        forall|k: int| 0 <= k < frames.len() - 1 ==> #[trigger] frames[k] == held[k],
        frames.last().node == held[held.len() - 2].node,
        climb_ok(g, m1, h1, frames.last().node, frames.last().next as int, frames.last().best),
    ensures
        climbs_ok(g, m1, h1, frames),
{
    let below = frames.len() - 1;
    assert forall|k: int| 0 <= k < frames.len() implies #[trigger] climb_at_ok(g, m1, h1, frames, k) by {
        if k < below {
            assert(frames[k] == held[k]);
            assert(climb_at_ok(g, m0, h0, held, k));
            lemma_climb_stays(g, m0, h0, m1, h1, held[k].node, held[k].next as int, held[k].best);
        }
    }
    assert forall|k: int| 0 <= k < frames.len() - 1 implies #[trigger] climb_waits(g, frames, k) by {
        assert(frames[k] == held[k]);
        assert(climb_waits(g, held, k));
    }
    assert(climb_nodes(frames) =~= climb_nodes(held).drop_last());
}

/// The height of every node: the number of nodes on the longest chain of
/// edges that ends at it, 1 for a node without predecessors. Where the
/// graph has a cycle, a self-loop counting as one, every height is 0.
pub fn critical_path_heights(graph: &DiGraph) -> (heights: Vec<usize>)
    ensures
        heights@.len() == graph.spec_len(),
        forall|v: usize| graph.has_node(v) ==> #[trigger] heights@[v as int] == depth(graph, v),
        is_acyclic(graph) ==> is_layering(graph, heights@),
        is_acyclic(graph) ==> forall|v: usize| graph.has_node(v) ==> #[trigger] heights@[v as int] >= 1,
        !is_acyclic(graph) ==> forall|v: usize| graph.has_node(v) ==> #[trigger] heights@[v as int] == 0,
{
    proof {
        use_type_invariant(graph);
    }
    let n = graph.len();
    let mut marks: Vec<u8> = Vec::new();
    let mut heights: Vec<usize> = Vec::new();
    let mut i: usize = 0;
    while i < n
        invariant
            i <= n,
            marks@.len() == i,
            heights@.len() == i,
            forall|k: int| 0 <= k < i ==> marks@[k] == fresh(),
            forall|k: int| 0 <= k < i ==> heights@[k] == 0,
        decreases n - i,
    {
        marks.push(0);
        heights.push(0);
        i += 1;
    }
    let mut v: usize = 0;
    while v < n
        invariant
            graph.wf(),
            n == graph.spec_len(),
            v <= n,
            search_ok(graph, marks@, heights@, Seq::<usize>::empty()),
            forall|u: usize| u < v ==> #[trigger] marks@[u as int] == settled_mark(),
        decreases n - v,
    {
        if marks[v] == 0 {
            let ghost mb = marks@;
            let ok = settle(graph, &mut marks, &mut heights, v);
            if !ok {
                return zeros(n);
            }
            proof {
                assert forall|u: usize| u < v + 1 implies #[trigger] marks@[u as int] == settled_mark() by {
                    if u < v {
                        assert(mb[u as int] == settled_mark());
                    }
                }
            }
        } else {
            proof {
                if marks@[v as int] == open_mark() {
                    assert(Seq::<usize>::empty().contains(v));
                }
            }
        }
        v += 1;
    }
    proof {
        assert(is_layering(graph, heights@));
        assert forall|u: usize| graph.has_node(u) implies #[trigger] heights@[u as int] == depth(
            graph,
            u,
        ) by {
            lemma_layering_is_depth(graph, heights@, u);
        }
        lemma_layering_acyclic(graph, heights@);
    }
    heights
}

/// A vector of `n` zeros.
fn zeros(n: usize) -> (v: Vec<usize>)
    ensures
        v@.len() == n,
        forall|i: int| 0 <= i < n ==> v@[i] == 0,
{
    let mut v: Vec<usize> = Vec::new();
    let mut i: usize = 0;
    while i < n
        invariant
            i <= n,
            v@.len() == i,
            forall|k: int| 0 <= k < i ==> v@[k] == 0,
        decreases n - i,
    {
        v.push(0);
        i += 1;
    }
    v
}

/// Whether `d` is the greatest height in the graph, 0 where the graph has
/// no node.
pub open spec fn is_top_depth(g: &DiGraph, d: nat) -> bool {
    &&& forall|v: usize| g.has_node(v) ==> #[trigger] depth(g, v) <= d
    &&& g.spec_len() == 0 ==> d == 0
    &&& g.spec_len() > 0 ==> exists|v: usize| g.has_node(v) && #[trigger] depth(g, v) == d
}

/// Whether no node of the graph is higher than `v`.
pub open spec fn is_critical(g: &DiGraph, v: usize) -> bool {
    g.has_node(v) && forall|u: usize| g.has_node(u) ==> #[trigger] depth(g, u) <= depth(g, v)
}

/// The nodes that no node is higher than are the nodes whose height is the
/// greatest height in the graph.
pub proof fn lemma_critical_is_top(g: &DiGraph, top: nat, v: usize)
    requires
        is_top_depth(g, top),
        g.has_node(v),
    ensures
        is_critical(g, v) <==> depth(g, v) == top,
{
    if is_critical(g, v) {
        let u = choose|u: usize| g.has_node(u) && #[trigger] depth(g, u) == top;
        assert(depth(g, u) <= depth(g, v));
    }
}

/// The greatest of `heights`, 0 where there is none.
fn greatest(heights: &Vec<usize>) -> (top: usize)
    ensures
        forall|i: int| 0 <= i < heights@.len() ==> heights@[i] <= top,
        heights@.len() == 0 ==> top == 0,
        heights@.len() > 0 ==> exists|i: int| 0 <= i < heights@.len() && heights@[i] == top,
{
    let mut top: usize = 0;
    let mut i: usize = 0;
    while i < heights.len()
        invariant
            i <= heights.len(),
            forall|k: int| 0 <= k < i ==> heights@[k] <= top,
            i == 0 ==> top == 0,
            i > 0 ==> exists|k: int| 0 <= k < i && heights@[k] == top,
        decreases heights.len() - i,
    {
        if i == 0 || heights[i] > top {
            top = heights[i];
        }
        proof {
            if heights@[i as int] == top {
                assert(0 <= i < i + 1 && heights@[i as int] == top);
            } else {
                let k = choose|k: int| 0 <= k < i && heights@[k] == top;
                assert(0 <= k < i + 1 && heights@[k] == top);
            }
        }
        i += 1;
    }
    top
}

/// The nodes that no node is higher than, in ascending order: the ends of
/// the longest chains. Where the graph has a cycle every height is 0, and
/// these are all nodes.
pub fn critical_path_nodes(graph: &DiGraph) -> (nodes: Vec<usize>)
    ensures
        forall|i: int, j: int| 0 <= i < j < nodes@.len() ==> nodes@[i] < nodes@[j],
        forall|v: usize| nodes@.contains(v) <==> is_critical(graph, v),
{
    proof {
        use_type_invariant(graph);
    }
    let heights = critical_path_heights(graph);
    let mut nodes: Vec<usize> = Vec::new();
    if heights.len() == 0 {
        proof {
            assert forall|v: usize| nodes@.contains(v) <==> is_critical(graph, v) by {}
        }
        return nodes;
    }
    let top = greatest(&heights);
    let ghost at = choose|i: int| 0 <= i < heights@.len() && heights@[i] == top;
    let mut v: usize = 0;
    while v < heights.len()
        invariant
            v <= heights.len(),
            heights@.len() == graph.spec_len(),
            forall|u: usize| graph.has_node(u) ==> #[trigger] heights@[u as int] == depth(graph, u),
            forall|i: int| 0 <= i < heights@.len() ==> heights@[i] <= top,
            0 <= at < heights@.len() && heights@[at] == top,
            forall|i: int| 0 <= i < nodes@.len() ==> nodes@[i] < v,
            forall|i: int, j: int| 0 <= i < j < nodes@.len() ==> nodes@[i] < nodes@[j],
            forall|u: usize| nodes@.contains(u) <==> u < v && heights@[u as int] == top,
        decreases heights.len() - v,
    {
        let ghost before = nodes@;
        if heights[v] == top {
            nodes.push(v);
        }
        proof {
            assert forall|u: usize| nodes@.contains(u) <==> u < v + 1 && heights@[u as int] == top by {
                if nodes@.contains(u) {
                    let i = choose|i: int| 0 <= i < nodes@.len() && nodes@[i] == u;
                    if i < before.len() {
                        assert(before[i] == u);
                        assert(before.contains(u));
                    }
                }
                if u < v + 1 && heights@[u as int] == top {
                    if u == v {
                        assert(nodes@[nodes@.len() - 1] == u);
                    } else {
                        assert(before.contains(u));
                        let i = choose|i: int| 0 <= i < before.len() && before[i] == u;
                        assert(nodes@[i] == u);
                    }
                }
            }
        }
        v += 1;
    }
    proof {
        graph.lemma_wf();
        assert forall|u: usize| nodes@.contains(u) <==> is_critical(graph, u) by {
            if nodes@.contains(u) {
                assert forall|x: usize| graph.has_node(x) implies #[trigger] depth(graph, x) <= depth(
                    graph,
                    u,
                ) by {
                    assert(heights@[x as int] <= top);
                }
            }
            if is_critical(graph, u) {
                let w = at as usize;
                assert(graph.has_node(w));
                assert(depth(graph, w) <= depth(graph, u));
                assert(heights@[w as int] == top);
                assert(heights@[u as int] <= top);
            }
        }
    }
    nodes
}

/// The greatest height in the graph: the number of nodes on its longest
/// chain, 0 where the graph has no node or has a cycle.
pub fn critical_path_length(graph: &DiGraph) -> (length: usize)
    ensures
        is_top_depth(graph, length as nat),
{
    proof {
        use_type_invariant(graph);
    }
    let heights = critical_path_heights(graph);
    let top = greatest(&heights);
    proof {
        graph.lemma_wf();
        assert forall|v: usize| graph.has_node(v) implies #[trigger] depth(graph, v) <= top by {
            assert(heights@[v as int] <= top);
        }
        if graph.spec_len() > 0 {
            let i = choose|i: int| 0 <= i < heights@.len() && heights@[i] == top;
            let v = i as usize;
            assert(graph.has_node(v) && depth(graph, v) == top);
        }
    }
    top
}

} // verus!
