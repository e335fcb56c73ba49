//! The frames of the cycle search: what holds of the nodes on the path
//! while the edges that leave them are taken in turn, and why the search
//! ends.

use crate::algorithms::cycles::{
    cut, cycles_on, is_path_from, lemma_cut_of_longer, lemma_cycles_on_extends, lemma_path_is_short,
};
use crate::counting::{lemma_written_bound, lemma_written_less, written};
use crate::graph::DiGraph;
use vstd::prelude::*;

verus! {

/// Whether the search need not go on to `w`: it is smaller than `start`, or
/// it is blocked and not `start` itself.
pub open spec fn quiet(start: usize, blocked: Seq<bool>, w: usize) -> bool {
    start <= w ==> w != start && blocked[w as int]
}

/// What holds of the frame at position `k`, which has come to the edge
/// `nexts[k]` of the node `stack[k]` and was opened when `bases[k]` cycles
/// were listed: while no cycle has been listed since, the search need not
/// go on to any node that the edges before `nexts[k]` lead to.
pub open spec fn step_at_ok(
    g: &DiGraph,
    start: usize,
    stack: Seq<usize>,
    blocked: Seq<bool>,
    nexts: Seq<int>,
    bases: Seq<int>,
    listed: int,
    k: int,
) -> bool {
    &&& 0 <= nexts[k] <= g.succs(stack[k]).len()
    &&& bases[k] <= listed
    &&& listed == bases[k] ==> forall|j: int|
        0 <= j < nexts[k] ==> quiet(start, blocked, #[trigger] g.succs(stack[k])[j])
}

/// Whether the frame at position `k` waits for the frame above it, whose
/// node the edge that it has come to leads to.
pub open spec fn step_waits(
    g: &DiGraph,
    stack: Seq<usize>,
    nexts: Seq<int>,
    bases: Seq<int>,
    k: int,
) -> bool {
    &&& 0 <= nexts[k] < g.succs(stack[k]).len()
    &&& g.succs(stack[k])[nexts[k]] == stack[k + 1]
    &&& bases[k] <= bases[k + 1]
}

/// What holds of the frames of the search, one for each node of the path.
pub open spec fn steps_ok(
    g: &DiGraph,
    start: usize,
    stack: Seq<usize>,
    blocked: Seq<bool>,
    nexts: Seq<int>,
    bases: Seq<int>,
    listed: int,
) -> bool {
    &&& nexts.len() == stack.len()
    &&& bases.len() == stack.len()
    &&& forall|k: int|
        0 <= k < stack.len() ==> #[trigger] step_at_ok(g, start, stack, blocked, nexts, bases, listed, k)
    &&& forall|k: int| 0 <= k < stack.len() - 1 ==> #[trigger] step_waits(g, stack, nexts, bases, k)
}

/// The cycles that the first `depth` frames have listed: for each, those
/// along the edges that it has passed.
pub open spec fn listed_by(
    g: &DiGraph,
    stack: Seq<usize>,
    nexts: Seq<int>,
    start: usize,
    depth: nat,
) -> Seq<Seq<usize>>
    decreases depth,
{
    if depth == 0 {
        Seq::empty()
    } else {
        listed_by(g, stack, nexts, start, (depth - 1) as nat) + cycles_on(
            g,
            stack.subrange(0, depth as int),
            start,
            nexts[depth - 1] as nat,
        )
    }
}

/// Whether `a` is the beginning of `b`.
pub open spec fn begins(a: Seq<Seq<usize>>, b: Seq<Seq<usize>>) -> bool {
    a.len() <= b.len() && b.subrange(0, a.len() as int) == a
}

/// What the first frames have listed does not depend on the frames above.
pub proof fn lemma_listed_same(
    g: &DiGraph,
    s1: Seq<usize>,
    n1: Seq<int>,
    s2: Seq<usize>,
    n2: Seq<int>,
    start: usize,
    depth: nat,
)
    requires
        depth <= s1.len(),
        depth <= s2.len(),
        depth <= n1.len(),
        depth <= n2.len(),
        forall|k: int| 0 <= k < depth ==> s1[k] == s2[k] && n1[k] == n2[k],
    ensures
        listed_by(g, s1, n1, start, depth) == listed_by(g, s2, n2, start, depth),
    decreases depth,
{
    if depth > 0 {
        lemma_listed_same(g, s1, n1, s2, n2, start, (depth - 1) as nat);
        assert(s1.subrange(0, depth as int) =~= s2.subrange(0, depth as int));
    }
}

/// The frames list no more when a frame is opened above them.
pub proof fn lemma_listed_enter(
    g: &DiGraph,
    stack: Seq<usize>,
    nexts: Seq<int>,
    start: usize,
    w: usize,
)
    requires
        nexts.len() == stack.len(),
    ensures
        listed_by(g, stack.push(w), nexts.push(0int), start, stack.len() + 1) == listed_by(
            g,
            stack,
            nexts,
            start,
            stack.len(),
        ),
{
    lemma_listed_same(g, stack.push(w), nexts.push(0int), stack, nexts, start, stack.len());
    let longer = stack.push(w).subrange(0, stack.len() as int + 1);
    assert(cycles_on(g, longer, start, 0) =~= Seq::<Seq<usize>>::empty());
    assert(listed_by(g, stack.push(w), nexts.push(0int), start, stack.len() + 1) =~= listed_by(
        g,
        stack,
        nexts,
        start,
        stack.len(),
    ));
}

/// What the frames list when the last frame passes one more edge: what
/// they listed, and the cycles along that edge.
pub proof fn lemma_listed_step(g: &DiGraph, stack: Seq<usize>, nexts: Seq<int>, start: usize)
    requires
        stack.len() > 0,
        nexts.len() == stack.len(),
        0 <= nexts.last(),
    ensures
        listed_by(
            g,
            stack,
            nexts.update(nexts.len() - 1, nexts.last() + 1),
            start,
            stack.len(),
        ) == listed_by(g, stack, nexts, start, (stack.len() - 1) as nat) + cycles_on(
            g,
            stack,
            start,
            (nexts.last() + 1) as nat,
        ),
        listed_by(g, stack, nexts, start, stack.len()) == listed_by(
            g,
            stack,
            nexts,
            start,
            (stack.len() - 1) as nat,
        ) + cycles_on(g, stack, start, nexts.last() as nat),
{
    let nexts2 = nexts.update(nexts.len() - 1, nexts.last() + 1);
    lemma_listed_same(g, stack, nexts2, stack, nexts, start, (stack.len() - 1) as nat);
    assert(stack.subrange(0, stack.len() as int) =~= stack);
}

/// Where the last frame stands at the edge that leads to the node of a new
/// frame, the cycles along that edge are those that the new frame lists
/// when it has passed all its edges.
pub proof fn lemma_descend(g: &DiGraph, path: Seq<usize>, start: usize, next: int, w: usize)
    requires
        g.wf(),
        is_path_from(g, path.push(w), start),
        path.len() > 0,
        0 <= next < g.succs(path.last()).len(),
        g.succs(path.last())[next] == w,
    ensures
        cycles_on(g, path, start, (next + 1) as nat) == cycles_on(g, path, start, next as nat)
            + cycles_on(g, path.push(w), start, g.succs(w).len()),
{
    let longer = path.push(w);
    let m = path.len() as int;
    assert(longer[0] == path[0]);
    assert(longer[m] == w);
    assert(w != start) by {
        assert(longer[0] == start);
    }
    assert(start <= longer[m]);
    assert(!path.contains(w)) by {
        if path.contains(w) {
            let i = choose|i: int| 0 <= i < path.len() && path[i] == w;
            assert(longer[i] == w);
        }
    }
    assert forall|i: int| 0 <= i < path.len() implies g.has_node(#[trigger] path[i]) by {
        assert(longer[i] == path[i]);
    }
    assert(g.has_node(longer[m]));
    assert(path.no_duplicates()) by {
        assert forall|i: int, j: int| 0 <= i < path.len() && 0 <= j < path.len() && i != j implies path[i]
            != path[j] by {
            assert(longer[i] == path[i] && longer[j] == path[j]);
        }
    }
    lemma_path_is_short(g, path, w);
}

/// The frames list the same when the last frame is closed, having passed
/// all its edges, and the frame below it passes the edge that led to it.
pub proof fn lemma_listed_leave(g: &DiGraph, stack: Seq<usize>, nexts: Seq<int>, start: usize)
    requires
        g.wf(),
        is_path_from(g, stack, start),
        stack.len() > 1,
        nexts.len() == stack.len(),
        nexts.last() == g.succs(stack.last()).len(),
        0 <= nexts[nexts.len() - 2] < g.succs(stack[stack.len() - 2]).len(),
        g.succs(stack[stack.len() - 2])[nexts[nexts.len() - 2]] == stack.last(),
    ensures
        listed_by(
            g,
            stack.drop_last(),
            nexts.drop_last().update(nexts.len() - 2, nexts[nexts.len() - 2] + 1),
            start,
            (stack.len() - 1) as nat,
        ) == listed_by(g, stack, nexts, start, stack.len()),
{
    let below = stack.len() - 2;
    let stack1 = stack.drop_last();
    let nexts1 = nexts.drop_last();
    let nexts2 = nexts1.update(below, nexts[below] + 1);
    let w = stack.last();
    assert(stack1.last() == stack[below]);
    assert(stack1.push(w) =~= stack);
    lemma_descend(g, stack1, start, nexts[below], w);
    lemma_listed_step(g, stack1, nexts1, start);
    lemma_listed_same(g, stack1, nexts1, stack, nexts, start, stack1.len());
    lemma_listed_same(g, stack1, nexts1, stack, nexts, start, (stack1.len() - 1) as nat);
    assert(stack.subrange(0, stack.len() as int) =~= stack);
    let front = listed_by(g, stack, nexts, start, (stack1.len() - 1) as nat);
    let mid = cycles_on(g, stack1, start, nexts[below] as nat);
    let top = cycles_on(g, stack, start, g.succs(w).len());
    assert(stack.subrange(0, stack1.len() as int) =~= stack1);
    assert(listed_by(g, stack, nexts, start, stack1.len()) == front + mid);
    assert(listed_by(g, stack, nexts, start, stack.len()) == (front + mid) + top);
    assert(listed_by(g, stack1, nexts2, start, stack1.len()) == front + (mid + top));
    assert((front + mid) + top =~= front + (mid + top));
}

/// What the first `k` frames would have listed, had the frame at position
/// `k - 1` passed all its edges.
pub open spec fn listed_through(
    g: &DiGraph,
    stack: Seq<usize>,
    nexts: Seq<int>,
    start: usize,
    k: int,
) -> Seq<Seq<usize>> {
    listed_by(g, stack, nexts, start, (k - 1) as nat) + cycles_on(
        g,
        stack.subrange(0, k),
        start,
        g.succs(stack[k - 1]).len(),
    )
}

/// One list that begins another begins what the other begins.
proof fn lemma_begins_on(a: Seq<Seq<usize>>, b: Seq<Seq<usize>>, c: Seq<Seq<usize>>)
    requires
        begins(a, b),
        begins(b, c),
    ensures
        begins(a, c),
{
    assert(c.subrange(0, a.len() as int) =~= b.subrange(0, a.len() as int));
}

/// A list put behind another begins what a list that it begins makes
/// behind the same.
proof fn lemma_begins_behind(front: Seq<Seq<usize>>, a: Seq<Seq<usize>>, b: Seq<Seq<usize>>)
    requires
        begins(a, b),
    ensures
        begins(front + a, front + b),
{
    assert((front + b).subrange(0, (front + a).len() as int) =~= front + a) by {
        assert forall|i: int| 0 <= i < (front + a).len() implies (front + b)[i] == (front + a)[i] by {
            if i >= front.len() {
                assert(b.subrange(0, a.len() as int)[i - front.len()] == a[i - front.len()]);
            }
        }
    }
}

/// What the frames have listed begins what the first `k` of them would
/// have listed, had the last of these passed all its edges.
pub proof fn lemma_unwind(g: &DiGraph, stack: Seq<usize>, nexts: Seq<int>, start: usize, k: int)
    requires
        g.wf(),
        is_path_from(g, stack, start),
        nexts.len() == stack.len(),
        forall|j: int| 0 <= j < stack.len() ==> 0 <= #[trigger] nexts[j] <= g.succs(stack[j]).len(),
        forall|j: int|
            0 <= j < stack.len() - 1 ==> nexts[j] < g.succs(stack[j]).len() && g.succs(
                stack[j],
            )[#[trigger] nexts[j]] == stack[j + 1],
        1 <= k <= stack.len(),
    ensures
        begins(listed_by(g, stack, nexts, start, stack.len()), listed_through(g, stack, nexts, start, k)),
    decreases stack.len() - k,
{
    let all = listed_by(g, stack, nexts, start, stack.len());
    let path = stack.subrange(0, k);
    assert(path.last() == stack[k - 1]);
    if k == stack.len() {
        assert(path =~= stack);
        let front = listed_by(g, stack, nexts, start, (k - 1) as nat);
        assert(0 <= nexts[k - 1] <= g.succs(stack[k - 1]).len());
        lemma_cycles_on_extends(g, stack, start, nexts[k - 1] as nat, g.succs(stack[k - 1]).len());
        lemma_begins_behind(
            front,
            cycles_on(g, stack, start, nexts[k - 1] as nat),
            cycles_on(g, stack, start, g.succs(stack[k - 1]).len()),
        );
    } else {
        lemma_unwind(g, stack, nexts, start, k + 1);
        let w = stack[k];
        let longer = stack.subrange(0, k + 1);
        assert(path.push(w) =~= longer);
        assert(is_path_from(g, longer, start)) by {
            assert forall|i: int| 0 <= i < longer.len() - 1 implies g.has_edge(
                #[trigger] longer[i],
                longer[i + 1],
            ) by {
                assert(g.has_edge(stack[i], stack[i + 1]));
            }
        }
        assert(0 <= nexts[k - 1] <= g.succs(stack[k - 1]).len());
        assert(nexts[k - 1] < g.succs(stack[k - 1]).len() && g.succs(stack[k - 1])[nexts[k - 1]]
            == stack[k - 1 + 1]);
        lemma_descend(g, path, start, nexts[k - 1], w);
        let front = listed_by(g, stack, nexts, start, (k - 1) as nat);
        let mid = cycles_on(g, path, start, nexts[k - 1] as nat);
        let top = cycles_on(g, longer, start, g.succs(w).len());
        assert(listed_by(g, stack, nexts, start, k as nat) == front + mid);
        assert(listed_through(g, stack, nexts, start, k + 1) == (front + mid) + top);
        assert((front + mid) + top =~= front + (mid + top));
        lemma_cycles_on_extends(g, path, start, (nexts[k - 1] + 1) as nat, g.succs(stack[k - 1]).len());
        lemma_begins_behind(
            front,
            mid + top,
            cycles_on(g, path, start, g.succs(stack[k - 1]).len()),
        );
        lemma_begins_on(
            all,
            listed_through(g, stack, nexts, start, k + 1),
            listed_through(g, stack, nexts, start, k),
        );
    }
}

/// Where the cap is reached while frames are open, what is listed is what
/// the whole search from `start` lists, cut at the cap.
pub proof fn lemma_cap_in_flight(
    g: &DiGraph,
    earlier: Seq<Seq<usize>>,
    stack: Seq<usize>,
    nexts: Seq<int>,
    start: usize,
    max: usize,
)
    requires
        g.wf(),
        is_path_from(g, stack, start),
        nexts.len() == stack.len(),
        forall|j: int| 0 <= j < stack.len() ==> 0 <= #[trigger] nexts[j] <= g.succs(stack[j]).len(),
        forall|j: int|
            0 <= j < stack.len() - 1 ==> nexts[j] < g.succs(stack[j]).len() && g.succs(
                stack[j],
            )[#[trigger] nexts[j]] == stack[j + 1],
        (earlier + listed_by(g, stack, nexts, start, stack.len())).len() >= max,
    ensures
        cut(
            earlier + cycles_on(g, Seq::empty().push(start), start, g.succs(start).len()),
            max,
        ) == cut(earlier + listed_by(g, stack, nexts, start, stack.len()), max),
{
    lemma_unwind(g, stack, nexts, start, 1);
    let first = Seq::<usize>::empty().push(start);
    assert(stack.subrange(0, 1) =~= first);
    let whole = cycles_on(g, first, start, g.succs(start).len());
    assert(listed_through(g, stack, nexts, start, 1) =~= whole);
    let some = listed_by(g, stack, nexts, start, stack.len());
    lemma_begins_behind(earlier, some, whole);
    lemma_cut_of_longer(earlier + some, earlier + whole, max);
}

/// The frames, written as digits: for each depth up to `n` the edges that
/// the frame there has not passed, and one more for the last frame; zero
/// where there is no frame.
pub open spec fn digits(g: &DiGraph, stack: Seq<usize>, nexts: Seq<int>, n: nat) -> Seq<int> {
    Seq::new(
        n,
        |d: int|
            if d < stack.len() - 1 {
                g.succs(stack[d]).len() - nexts[d]
            } else if d == stack.len() - 1 {
                g.succs(stack[d]).len() - nexts[d] + 1
            } else {
                0
            },
    )
}

/// The base in which the digits of the frames are written.
pub open spec fn radix(g: &DiGraph) -> int {
    g.edge_total() as int + 2
}

/// The measure of the search: the number that the digits of its frames
/// write.
pub open spec fn search_left(g: &DiGraph, stack: Seq<usize>, nexts: Seq<int>) -> int {
    written(digits(g, stack, nexts, g.spec_len()), radix(g))
}

/// Whether every frame stands at an edge of its node, and every frame but
/// the last before the end of them.
pub open spec fn within(g: &DiGraph, stack: Seq<usize>, nexts: Seq<int>) -> bool {
    &&& nexts.len() == stack.len()
    &&& stack.len() <= g.spec_len()
    &&& forall|k: int| 0 <= k < stack.len() ==> g.has_node(#[trigger] stack[k])
    &&& forall|k: int| 0 <= k < stack.len() ==> 0 <= #[trigger] nexts[k] <= g.succs(stack[k]).len()
    &&& forall|k: int| 0 <= k < stack.len() - 1 ==> #[trigger] nexts[k] < g.succs(stack[k]).len()
}

/// The digits of frames that stand within their edges are digits.
pub proof fn lemma_digits(g: &DiGraph, stack: Seq<usize>, nexts: Seq<int>)
    requires
        g.wf(),
        within(g, stack, nexts),
    ensures
        forall|d: int|
            0 <= d < g.spec_len() ==> 0 <= #[trigger] digits(g, stack, nexts, g.spec_len())[d] < radix(
                g,
            ),
        0 <= search_left(g, stack, nexts),
{
    g.lemma_wf();
    let m = digits(g, stack, nexts, g.spec_len());
    assert forall|d: int| 0 <= d < g.spec_len() implies 0 <= #[trigger] m[d] < radix(g) by {
        if d < stack.len() {
            assert(g.has_node(stack[d]));
            assert(0 <= nexts[d] <= g.succs(stack[d]).len());
            assert(g.succs(stack[d]).len() <= g.edge_total());
            if d < stack.len() - 1 {
                assert(nexts[d] < g.succs(stack[d]).len());
            }
        }
    }
    lemma_written_bound(m, radix(g));
}

/// The measure falls when the last frame passes an edge.
pub proof fn lemma_left_step(g: &DiGraph, stack: Seq<usize>, nexts: Seq<int>)
    requires
        g.wf(),
        stack.len() > 0,
        within(g, stack, nexts),
        nexts.last() < g.succs(stack.last()).len(),
    ensures
        within(g, stack, nexts.update(nexts.len() - 1, nexts.last() + 1)),
        0 <= search_left(g, stack, nexts.update(nexts.len() - 1, nexts.last() + 1)) < search_left(
            g,
            stack,
            nexts,
        ),
{
    let top = stack.len() - 1;
    let nexts2 = nexts.update(top, nexts.last() + 1);
    assert(within(g, stack, nexts2));
    lemma_digits(g, stack, nexts);
    lemma_digits(g, stack, nexts2);
    lemma_written_less(
        digits(g, stack, nexts2, g.spec_len()),
        digits(g, stack, nexts, g.spec_len()),
        radix(g),
        top,
    );
}

/// The measure falls when a frame is opened for the node that the edge at
/// which the last frame stands leads to.
pub proof fn lemma_left_enter(g: &DiGraph, stack: Seq<usize>, nexts: Seq<int>, w: usize)
    requires
        g.wf(),
        stack.len() > 0,
        stack.len() < g.spec_len(),
        within(g, stack, nexts),
        nexts.last() < g.succs(stack.last()).len(),
        g.has_node(w),
    ensures
        within(g, stack.push(w), nexts.push(0int)),
        0 <= search_left(g, stack.push(w), nexts.push(0int)) < search_left(g, stack, nexts),
{
    let top = stack.len() - 1;
    let stack2 = stack.push(w);
    let nexts2 = nexts.push(0int);
    assert(within(g, stack2, nexts2)) by {
        assert forall|k: int| 0 <= k < stack2.len() - 1 implies #[trigger] nexts2[k] < g.succs(
            stack2[k],
        ).len() by {
            if k < top {
                assert(nexts[k] < g.succs(stack[k]).len());
            }
        }
    }
    lemma_digits(g, stack, nexts);
    lemma_digits(g, stack2, nexts2);
    lemma_written_less(
        digits(g, stack2, nexts2, g.spec_len()),
        digits(g, stack, nexts, g.spec_len()),
        radix(g),
        top,
    );
}

/// The measure falls when the last frame is closed and the frame below it
/// passes the edge that led to it.
pub proof fn lemma_left_leave(g: &DiGraph, stack: Seq<usize>, nexts: Seq<int>)
    requires
        g.wf(),
        stack.len() > 1,
        within(g, stack, nexts),
    ensures
        within(
            g,
            stack.drop_last(),
            nexts.drop_last().update(nexts.len() - 2, nexts[nexts.len() - 2] + 1),
        ),
        0 <= search_left(
            g,
            stack.drop_last(),
            nexts.drop_last().update(nexts.len() - 2, nexts[nexts.len() - 2] + 1),
        ) < search_left(g, stack, nexts),
{
    let top = stack.len() - 1;
    let below = stack.len() - 2;
    let stack2 = stack.drop_last();
    let nexts2 = nexts.drop_last().update(below, nexts[below] + 1);
    assert(nexts[below] < g.succs(stack[below]).len());
    assert(within(g, stack2, nexts2)) by {
        assert forall|k: int| 0 <= k < stack2.len() implies 0 <= #[trigger] nexts2[k] <= g.succs(
            stack2[k],
        ).len() by {
            assert(0 <= nexts[k] <= g.succs(stack[k]).len());
        }
        assert forall|k: int| 0 <= k < stack2.len() - 1 implies #[trigger] nexts2[k] < g.succs(
            stack2[k],
        ).len() by {
            assert(nexts[k] < g.succs(stack[k]).len());
        }
        assert forall|k: int| 0 <= k < stack2.len() implies g.has_node(#[trigger] stack2[k]) by {
            assert(g.has_node(stack[k]));
        }
    }
    lemma_digits(g, stack, nexts);
    lemma_digits(g, stack2, nexts2);
    assert(0 <= nexts[top] <= g.succs(stack[top]).len());
    lemma_written_less(
        digits(g, stack2, nexts2, g.spec_len()),
        digits(g, stack, nexts, g.spec_len()),
        radix(g),
        top,
    );
}

/// The measure falls when the only frame is closed.
pub proof fn lemma_left_last(g: &DiGraph, stack: Seq<usize>, nexts: Seq<int>)
    requires
        g.wf(),
        stack.len() == 1,
        within(g, stack, nexts),
    ensures
        0 <= search_left(g, stack.drop_last(), nexts.drop_last()) < search_left(g, stack, nexts),
{
    let stack2 = stack.drop_last();
    let nexts2 = nexts.drop_last();
    assert(within(g, stack2, nexts2));
    lemma_digits(g, stack, nexts);
    lemma_digits(g, stack2, nexts2);
    assert(0 <= nexts[0] <= g.succs(stack[0]).len());
    lemma_written_less(
        digits(g, stack2, nexts2, g.spec_len()),
        digits(g, stack, nexts, g.spec_len()),
        radix(g),
        0,
    );
}

/// The frames stay in order when a frame is opened for the node `w`, which
/// the edge at which the last frame stands leads to, and `w` is blocked.
pub proof fn lemma_steps_enter(
    g: &DiGraph,
    start: usize,
    stack: Seq<usize>,
    blocked: Seq<bool>,
    nexts: Seq<int>,
    bases: Seq<int>,
    listed: int,
    w: usize,
)
    requires
        g.wf(),
        blocked.len() == g.spec_len(),
        stack.len() > 0,
        forall|k: int| 0 <= k < stack.len() ==> g.has_node(#[trigger] stack[k]),
        steps_ok(g, start, stack, blocked, nexts, bases, listed),
        nexts.last() < g.succs(stack.last()).len(),
        g.succs(stack.last())[nexts.last()] == w,
    ensures
        steps_ok(
            g,
            start,
            stack.push(w),
            blocked.update(w as int, true),
            nexts.push(0int),
            bases.push(listed),
            listed,
        ),
{
    g.lemma_wf();
    let top = stack.len() - 1;
    let stack2 = stack.push(w);
    let blocked2 = blocked.update(w as int, true);
    let nexts2 = nexts.push(0int);
    let bases2 = bases.push(listed);
    assert(step_at_ok(g, start, stack, blocked, nexts, bases, listed, top));
    assert forall|k: int| 0 <= k < stack2.len() implies #[trigger] step_at_ok(
        g,
        start,
        stack2,
        blocked2,
        nexts2,
        bases2,
        listed,
        k,
    ) by {
        if k <= top {
            assert(step_at_ok(g, start, stack, blocked, nexts, bases, listed, k));
            assert(g.has_node(stack[k]));
            if listed == bases[k] {
                assert forall|j: int| 0 <= j < nexts2[k] implies quiet(
                    start,
                    blocked2,
                    #[trigger] g.succs(stack2[k])[j],
                ) by {
                    assert(quiet(start, blocked, g.succs(stack[k])[j]));
                    assert(g.has_node(g.succs(stack[k])[j]));
                }
            }
        }
    }
    assert forall|k: int| 0 <= k < stack2.len() - 1 implies #[trigger] step_waits(
        g,
        stack2,
        nexts2,
        bases2,
        k,
    ) by {
        if k < top {
            assert(step_waits(g, stack, nexts, bases, k));
        }
    }
}

/// The frames stay in order when the last frame passes an edge that the
/// search need not follow.
pub proof fn lemma_steps_skip(
    g: &DiGraph,
    start: usize,
    stack: Seq<usize>,
    blocked: Seq<bool>,
    nexts: Seq<int>,
    bases: Seq<int>,
    listed: int,
)
    requires
        stack.len() > 0,
        steps_ok(g, start, stack, blocked, nexts, bases, listed),
        nexts.last() < g.succs(stack.last()).len(),
        quiet(start, blocked, g.succs(stack.last())[nexts.last()]),
    ensures
        steps_ok(
            g,
            start,
            stack,
            blocked,
            nexts.update(nexts.len() - 1, nexts.last() + 1),
            bases,
            listed,
        ),
{
    let top = stack.len() - 1;
    let nexts2 = nexts.update(top, nexts.last() + 1);
    assert forall|k: int| 0 <= k < stack.len() implies #[trigger] step_at_ok(
        g,
        start,
        stack,
        blocked,
        nexts2,
        bases,
        listed,
        k,
    ) by {
        assert(step_at_ok(g, start, stack, blocked, nexts, bases, listed, k));
    }
    assert forall|k: int| 0 <= k < stack.len() - 1 implies #[trigger] step_waits(
        g,
        stack,
        nexts2,
        bases,
        k,
    ) by {
        assert(step_waits(g, stack, nexts, bases, k));
    }
}

/// The frames stay in order when the last frame passes an edge along which
/// a cycle is listed.
pub proof fn lemma_steps_found(
    g: &DiGraph,
    start: usize,
    stack: Seq<usize>,
    blocked: Seq<bool>,
    nexts: Seq<int>,
    bases: Seq<int>,
    listed: int,
)
    requires
        stack.len() > 0,
        steps_ok(g, start, stack, blocked, nexts, bases, listed),
        nexts.last() < g.succs(stack.last()).len(),
    ensures
        steps_ok(
            g,
            start,
            stack,
            blocked,
            nexts.update(nexts.len() - 1, nexts.last() + 1),
            bases,
            listed + 1,
        ),
{
    let top = stack.len() - 1;
    let nexts2 = nexts.update(top, nexts.last() + 1);
    assert forall|k: int| 0 <= k < stack.len() implies #[trigger] step_at_ok(
        g,
        start,
        stack,
        blocked,
        nexts2,
        bases,
        listed + 1,
        k,
    ) by {
        assert(step_at_ok(g, start, stack, blocked, nexts, bases, listed, k));
    }
    assert forall|k: int| 0 <= k < stack.len() - 1 implies #[trigger] step_waits(
        g,
        stack,
        nexts2,
        bases,
        k,
    ) by {
        assert(step_waits(g, stack, nexts, bases, k));
    }
}

/// No frame was opened when more cycles were listed than when the last
/// frame was.
pub proof fn lemma_bases_rise(
    g: &DiGraph,
    stack: Seq<usize>,
    nexts: Seq<int>,
    bases: Seq<int>,
    k: int,
)
    requires
        bases.len() == stack.len(),
        forall|j: int| 0 <= j < stack.len() - 1 ==> #[trigger] step_waits(g, stack, nexts, bases, j),
        0 <= k < stack.len(),
    ensures
        bases[k] <= bases.last(),
    decreases stack.len() - k,
{
    if k < stack.len() - 1 {
        assert(step_waits(g, stack, nexts, bases, k));
        lemma_bases_rise(g, stack, nexts, bases, k + 1);
    }
}

/// The frames stay in order when the last frame is closed and the frame
/// below it passes the edge that led to it: either a cycle was listed
/// since the last frame was opened, or nothing was unblocked and the node
/// of the last frame stays blocked.
pub proof fn lemma_steps_leave(
    g: &DiGraph,
    start: usize,
    stack: Seq<usize>,
    blocked: Seq<bool>,
    after: Seq<bool>,
    nexts: Seq<int>,
    bases: Seq<int>,
    listed: int,
)
    requires
        stack.len() > 1,
        is_path_from(g, stack, start),
        steps_ok(g, start, stack, blocked, nexts, bases, listed),
        listed > bases.last() || (after == blocked && blocked[stack.last() as int]),
    ensures
        steps_ok(
            g,
            start,
            stack.drop_last(),
            after,
            nexts.drop_last().update(nexts.len() - 2, nexts[nexts.len() - 2] + 1),
            bases.drop_last(),
            listed,
        ),
{
    let top = stack.len() - 1;
    let below = stack.len() - 2;
    let stack2 = stack.drop_last();
    let nexts2 = nexts.drop_last().update(below, nexts[below] + 1);
    let bases2 = bases.drop_last();
    assert(step_waits(g, stack, nexts, bases, below));
    assert forall|k: int| 0 <= k < stack2.len() implies #[trigger] step_at_ok(
        g,
        start,
        stack2,
        after,
        nexts2,
        bases2,
        listed,
        k,
    ) by {
        assert(step_at_ok(g, start, stack, blocked, nexts, bases, listed, k));
        lemma_bases_rise(g, stack, nexts, bases, k);
        if listed == bases[k] {
            assert forall|j: int| 0 <= j < nexts2[k] implies quiet(
                start,
                after,
                #[trigger] g.succs(stack2[k])[j],
            ) by {
                if j < nexts[k] {
                    assert(quiet(start, blocked, g.succs(stack[k])[j]));
                } else {
                    assert(k == below);
                    assert(g.succs(stack[k])[j] == stack[top]);
                    assert(stack[0] == start);
                    assert(stack[top] != stack[0]);
                }
            }
        }
    }
    assert forall|k: int| 0 <= k < stack2.len() - 1 implies #[trigger] step_waits(
        g,
        stack2,
        nexts2,
        bases2,
        k,
    ) by {
        assert(step_waits(g, stack, nexts, bases, k));
    }
}

/// What frames in order along a path say of the edges at which they stand.
pub proof fn lemma_steps_within(
    g: &DiGraph,
    start: usize,
    stack: Seq<usize>,
    blocked: Seq<bool>,
    nexts: Seq<int>,
    bases: Seq<int>,
    listed: int,
)
    requires
        is_path_from(g, stack, start),
        stack.len() <= g.spec_len(),
        steps_ok(g, start, stack, blocked, nexts, bases, listed),
    ensures
        within(g, stack, nexts),
        forall|j: int| 0 <= j < stack.len() ==> 0 <= #[trigger] nexts[j] <= g.succs(stack[j]).len(),
        forall|j: int|
            0 <= j < stack.len() - 1 ==> nexts[j] < g.succs(stack[j]).len() && g.succs(
                stack[j],
            )[#[trigger] nexts[j]] == stack[j + 1],
        0 <= nexts.last() <= g.succs(stack.last()).len(),
        bases.last() <= listed,
        listed == bases.last() ==> forall|j: int|
            0 <= j < nexts.last() ==> quiet(start, blocked, #[trigger] g.succs(stack.last())[j]),
        stack.len() > 1 ==> 0 <= nexts[nexts.len() - 2] < g.succs(stack[stack.len() - 2]).len()
            && g.succs(stack[stack.len() - 2])[nexts[nexts.len() - 2]] == stack.last(),
{
    let top = stack.len() - 1;
    assert(step_at_ok(g, start, stack, blocked, nexts, bases, listed, top));
    assert forall|j: int| 0 <= j < stack.len() implies 0 <= #[trigger] nexts[j] <= g.succs(
        stack[j],
    ).len() by {
        assert(step_at_ok(g, start, stack, blocked, nexts, bases, listed, j));
    }
    assert forall|j: int| 0 <= j < stack.len() - 1 implies nexts[j] < g.succs(stack[j]).len()
        && g.succs(stack[j])[#[trigger] nexts[j]] == stack[j + 1] by {
        assert(step_waits(g, stack, nexts, bases, j));
    }
    if stack.len() > 1 {
        assert(step_waits(g, stack, nexts, bases, top - 1));
    }
}

} // verus!
