//! The search behind the enumeration of cycles.
//!
//! A node that is on the current path, or from which the start could not be
//! reached past the current path, is blocked; it waits on its successors
//! and is released when one of them is. Blocking saves the search from
//! walking into dead ends twice; it does not change what is listed.

use crate::algorithms::cycle_steps::{
    lemma_cap_in_flight, lemma_digits, lemma_left_enter, lemma_left_last, lemma_left_leave,
    lemma_left_step, lemma_listed_enter, lemma_listed_leave, lemma_listed_step, lemma_steps_enter,
    lemma_steps_found, lemma_steps_leave, lemma_steps_skip, lemma_steps_within, listed_by, quiet,
    search_left, step_at_ok, steps_ok,
};
use crate::algorithms::cycles::{
    closes_through, cut, cycle_views, cycles_on, is_path_from, lemma_cycles_on_sound,
    lemma_path_fits, lemma_path_push,
};
use crate::counting::{
    count_true, lemma_count_true_bound, lemma_count_true_set, lemma_count_true_shrinks,
    lemma_distinct_set_positions,
};
use crate::graph::DiGraph;
use vstd::prelude::*;

verus! {

/// The state of one search, as plain values. The three time stamps exist in
/// proofs only: they record when each node last joined and last left the path.
pub struct SearchState {
    pub blocked: Seq<bool>,
    pub waiting: Seq<Seq<usize>>,
    pub stack: Seq<usize>,
    pub clock: nat,
    pub pushed: Seq<nat>,
    pub popped: Seq<nat>,
}

impl SearchState {
    /// Whether every array of the state has one entry for each of `n` nodes.
    pub open spec fn sized(self, n: nat) -> bool {
        &&& self.blocked.len() == n
        &&& self.waiting.len() == n
        &&& self.pushed.len() == n
        &&& self.popped.len() == n
    }

    /// The path starts at `start`, stays among the nodes from `start` on,
    /// follows edges and visits no node twice.
    pub open spec fn path_ok(self, g: &DiGraph, start: usize) -> bool {
        &&& g.has_node(start)
        &&& forall|i: int|
            0 <= i < self.stack.len() ==> start <= #[trigger] self.stack[i] && g.has_node(
                self.stack[i],
            )
        &&& self.stack.no_duplicates()
        &&& forall|i: int|
            0 <= i < self.stack.len() - 1 ==> g.has_edge(#[trigger] self.stack[i], self.stack[i + 1])
        &&& self.stack.len() > 0 ==> self.stack[0] == start
    }

    /// Time stamps are in the past, grow along the path, and a node that left
    /// after a path node joined had itself joined after it.
    pub open spec fn times_ok(self) -> bool {
        &&& forall|v: int| 0 <= v < self.pushed.len() ==> #[trigger] self.pushed[v] < self.clock
        &&& forall|v: int| 0 <= v < self.popped.len() ==> #[trigger] self.popped[v] < self.clock
        &&& forall|i: int, j: int|
            0 <= i < j < self.stack.len() ==> self.pushed[#[trigger] self.stack[i] as int]
                < self.pushed[#[trigger] self.stack[j] as int]
        &&& forall|i: int, u: usize|
            0 <= i < self.stack.len() && u < self.popped.len() && !self.stack.contains(u)
                && #[trigger] self.popped[u as int] > self.pushed[#[trigger] self.stack[i] as int]
                ==> self.pushed[u as int] > self.pushed[self.stack[i] as int]
    }

    /// Only blocked nodes are waited on; a waiting node that is on the path
    /// joined after the node it waits on, and one that is blocked off the
    /// path left after that node joined.
    pub open spec fn waiting_ok(self) -> bool {
        &&& forall|x: int, j: int|
            0 <= x < self.waiting.len() && 0 <= j < self.waiting[x].len() ==> (
            #[trigger] self.waiting[x][j]) < self.waiting.len()
        &&& forall|x: int|
            0 <= x < self.waiting.len() && (#[trigger] self.waiting[x]).len() > 0
                ==> self.blocked[x]
        &&& forall|x: int, j: int|
            0 <= x < self.waiting.len() && 0 <= j < self.waiting[x].len() && self.stack.contains(
                #[trigger] self.waiting[x][j],
            ) ==> self.pushed[x] < self.pushed[self.waiting[x][j] as int]
        &&& forall|x: int, j: int|
            0 <= x < self.waiting.len() && 0 <= j < self.waiting[x].len() && !self.stack.contains(
                #[trigger] self.waiting[x][j],
            ) && self.blocked[self.waiting[x][j] as int] ==> self.popped[self.waiting[x][j] as int]
                > self.pushed[x]
    }

    /// The first `k` nodes of the path are blocked.
    pub open spec fn path_blocked(self, k: int) -> bool {
        forall|i: int| 0 <= i < k && i < self.stack.len() ==> self.blocked[#[trigger] self.stack[i] as int]
    }

    /// What holds while nodes are being released: all of the invariant but
    /// that the last node of the path is blocked.
    #[verifier::opaque]
    pub open spec fn inv_releasing(self, g: &DiGraph, start: usize) -> bool {
        &&& self.sized(g.spec_len())
        &&& self.path_ok(g, start)
        &&& self.times_ok()
        &&& self.waiting_ok()
        &&& self.path_blocked(self.stack.len() - 1)
    }

    /// The invariant of a search between two of its steps.
    #[verifier::opaque]
    pub open spec fn inv(self, g: &DiGraph, start: usize) -> bool {
        &&& self.inv_releasing(g, start)
        &&& self.path_blocked(self.stack.len() as int)
    }

    /// Every blocked node off the path, but for those in `pending`, cannot
    /// go on: each of its successors from `start` on is blocked too, is not
    /// `start`, and has the node on its waiting list.
    pub open spec fn settled_ok(self, g: &DiGraph, start: usize, pending: Set<usize>) -> bool {
        forall|x: usize, j: int|
            g.has_node(x) && self.blocked[x as int] && !self.stack.contains(x) && !pending.contains(
                x,
            ) && 0 <= j < g.succs(x).len() && start <= #[trigger] g.succs(x)[j] ==> {
                let w = g.succs(x)[j];
                w != start && self.blocked[w as int] && self.waiting[w as int].contains(x)
            }
    }

    /// A node that may be released while the path stands: it is off the path
    /// and joined it last after the path's last node did.
    pub open spec fn releasable(self, u: usize) -> bool {
        &&& u < self.blocked.len()
        &&& self.stack.len() > 0
        &&& !self.stack.contains(u)
        &&& self.pushed[u as int] > self.pushed[self.stack.last() as int]
    }

    /// The state after `v` has joined the path.
    pub open spec fn enter(self, v: usize) -> SearchState {
        SearchState {
            blocked: self.blocked.update(v as int, true),
            stack: self.stack.push(v),
            clock: self.clock + 1,
            pushed: self.pushed.update(v as int, self.clock),
            ..self
        }
    }

    /// The state after the last node has left the path.
    pub open spec fn leave(self) -> SearchState {
        SearchState {
            stack: self.stack.drop_last(),
            clock: self.clock + 1,
            popped: self.popped.update(self.stack.last() as int, self.clock),
            ..self
        }
    }

    /// The state after `u` has been unblocked and its waiting list taken.
    pub open spec fn release(self, u: usize) -> SearchState {
        SearchState {
            blocked: self.blocked.update(u as int, false),
            waiting: self.waiting.update(u as int, Seq::empty()),
            ..self
        }
    }

    /// The state after `v` has been put on the waiting list of `w`.
    pub open spec fn note(self, w: usize, v: usize) -> SearchState {
        SearchState { waiting: self.waiting.update(w as int, self.waiting[w as int].push(v)), ..self }
    }
}

/// The invariant holds on when a node that is not blocked joins the path.
proof fn lemma_enter(g: &DiGraph, st: SearchState, start: usize, v: usize)
    requires
        st.inv(g, start),
        g.has_node(v),
        start <= v,
        !st.blocked[v as int],
        st.stack.len() == 0 ==> v == start,
        st.stack.len() > 0 ==> g.has_edge(st.stack.last(), v),
    ensures
        st.enter(v).inv(g, start),
        !st.stack.contains(v),
        st.stack.len() < g.spec_len(),
{
    reveal(SearchState::inv_releasing);
    reveal(SearchState::inv);
    let e = st.enter(v);
    assert(!st.stack.contains(v)) by {
        if st.stack.contains(v) {
            let i = choose|i: int| 0 <= i < st.stack.len() && st.stack[i] == v;
            assert(st.blocked[st.stack[i] as int]);
        }
    }
    assert(st.stack.len() < g.spec_len()) by {
        assert forall|i: int| 0 <= i < st.stack.len() implies (#[trigger] st.stack[i])
            < st.blocked.len() && st.blocked[st.stack[i] as int] by {}
        lemma_distinct_set_positions(st.blocked, st.stack);
        lemma_count_true_set(st.blocked, v as int);
        lemma_count_true_bound(st.blocked.update(v as int, true));
    }
    assert(e.path_ok(g, start)) by {
        assert forall|i: int| 0 <= i < e.stack.len() - 1 implies g.has_edge(
            #[trigger] e.stack[i],
            e.stack[i + 1],
        ) by {
            if i + 1 < st.stack.len() {
                assert(g.has_edge(st.stack[i], st.stack[i + 1]));
            }
        }
    }
    assert forall|y: usize| e.stack.contains(y) implies st.stack.contains(y) || y == v by {
        let i = choose|i: int| 0 <= i < e.stack.len() && e.stack[i] == y;
        if i < st.stack.len() {
            assert(st.stack[i] == y);
        }
    }
    assert forall|y: usize| st.stack.contains(y) implies e.stack.contains(y) by {
        let i = choose|i: int| 0 <= i < st.stack.len() && st.stack[i] == y;
        assert(e.stack[i] == y);
    }
    assert(e.stack.contains(v)) by {
        assert(e.stack[st.stack.len() as int] == v);
    }
    assert(e.times_ok()) by {
        assert forall|i: int, j: int| 0 <= i < j < e.stack.len() implies e.pushed[
            #[trigger] e.stack[i] as int
        ] < e.pushed[#[trigger] e.stack[j] as int] by {
            assert(st.stack[i] != v);
            if j < st.stack.len() {
                assert(st.stack[j] != v);
            }
        }
        assert forall|i: int, u: usize|
            0 <= i < e.stack.len() && u < e.popped.len() && !e.stack.contains(u)
                && #[trigger] e.popped[u as int] > e.pushed[
                #[trigger] e.stack[i] as int
            ] implies e.pushed[u as int] > e.pushed[e.stack[i] as int] by {
            if i < st.stack.len() {
                assert(st.stack[i] != v);
                assert(!st.stack.contains(u));
                assert(st.popped[u as int] > st.pushed[st.stack[i] as int]);
            }
        }
    }
    assert(e.waiting_ok()) by {
        assert(st.waiting[v as int].len() == 0);
        assert forall|x: int, j: int|
            0 <= x < e.waiting.len() && 0 <= j < e.waiting[x].len() && e.stack.contains(
                #[trigger] e.waiting[x][j],
            ) implies e.pushed[x] < e.pushed[e.waiting[x][j] as int] by {
            let y = st.waiting[x][j];
            if y != v {
                assert(st.stack.contains(y));
            }
        }
        assert forall|x: int, j: int|
            0 <= x < e.waiting.len() && 0 <= j < e.waiting[x].len() && !e.stack.contains(
                #[trigger] e.waiting[x][j],
            ) && e.blocked[e.waiting[x][j] as int] implies e.popped[e.waiting[x][j] as int]
            > e.pushed[x] by {
            let y = st.waiting[x][j];
            assert(!st.stack.contains(y));
        }
    }
}

/// The invariant holds again when the last node has left the path.
proof fn lemma_leave(g: &DiGraph, st: SearchState, start: usize)
    requires
        st.inv_releasing(g, start),
        st.stack.len() > 0,
    ensures
        st.leave().inv(g, start),
        forall|x: int|
            0 <= x < st.pushed.len() ==> #[trigger] st.leave().pushed[x] < st.leave().popped[st.stack.last() as int],
{
    reveal(SearchState::inv_releasing);
    reveal(SearchState::inv);
    let e = st.leave();
    let v = st.stack.last();
    let m = st.stack.len() - 1;
    assert forall|y: usize| e.stack.contains(y) implies st.stack.contains(y) && y != v by {
        let i = choose|i: int| 0 <= i < e.stack.len() && e.stack[i] == y;
        assert(st.stack[i] == y);
    }
    assert forall|y: usize| st.stack.contains(y) && y != v implies e.stack.contains(y) by {
        let i = choose|i: int| 0 <= i < st.stack.len() && st.stack[i] == y;
        assert(e.stack[i] == y);
    }
    assert(st.stack.contains(v)) by {
        assert(st.stack[m] == v);
    }
    assert(e.path_ok(g, start)) by {
        assert forall|i: int| 0 <= i < e.stack.len() - 1 implies g.has_edge(
            #[trigger] e.stack[i],
            e.stack[i + 1],
        ) by {
            assert(g.has_edge(st.stack[i], st.stack[i + 1]));
        }
    }
    assert(e.times_ok()) by {
        assert forall|i: int, j: int| 0 <= i < j < e.stack.len() implies e.pushed[
            #[trigger] e.stack[i] as int
        ] < e.pushed[#[trigger] e.stack[j] as int] by {
            assert(st.pushed[st.stack[i] as int] < st.pushed[st.stack[j] as int]);
        }
        assert forall|i: int, u: usize|
            0 <= i < e.stack.len() && u < e.popped.len() && !e.stack.contains(u)
                && #[trigger] e.popped[u as int] > e.pushed[
                #[trigger] e.stack[i] as int
            ] implies e.pushed[u as int] > e.pushed[e.stack[i] as int] by {
            if u == v {
                assert(st.pushed[st.stack[i] as int] < st.pushed[st.stack[m] as int]);
            } else {
                assert(!st.stack.contains(u));
                assert(st.popped[u as int] > st.pushed[st.stack[i] as int]);
            }
        }
    }
    assert(e.waiting_ok()) by {
        assert forall|x: int, j: int|
            0 <= x < e.waiting.len() && 0 <= j < e.waiting[x].len() && e.stack.contains(
                #[trigger] e.waiting[x][j],
            ) implies e.pushed[x] < e.pushed[e.waiting[x][j] as int] by {
            assert(st.stack.contains(st.waiting[x][j]));
        }
        assert forall|x: int, j: int|
            0 <= x < e.waiting.len() && 0 <= j < e.waiting[x].len() && !e.stack.contains(
                #[trigger] e.waiting[x][j],
            ) && e.blocked[e.waiting[x][j] as int] implies e.popped[e.waiting[x][j] as int]
            > e.pushed[x] by {
            let y = st.waiting[x][j];
            if y != v {
                assert(!st.stack.contains(y));
            } else {
                assert(st.pushed[x] < st.clock);
            }
        }
    }
    assert(e.path_blocked(e.stack.len() as int)) by {
        assert forall|i: int| 0 <= i < e.stack.len() implies e.blocked[
            #[trigger] e.stack[i] as int
        ] by {
            assert(st.blocked[st.stack[i] as int]);
        }
    }
}

/// The invariant holds on when a node that has left the path blocked is
/// put on the waiting list of a blocked node.
proof fn lemma_note(g: &DiGraph, st: SearchState, start: usize, w: usize, v: usize)
    requires
        st.inv(g, start),
        g.has_node(w),
        g.has_node(v),
        st.blocked[w as int],
        !st.stack.contains(v),
        st.popped[v as int] > st.pushed[w as int],
    ensures
        st.note(w, v).inv(g, start),
{
    reveal(SearchState::inv_releasing);
    reveal(SearchState::inv);
    let e = st.note(w, v);
    assert(e.waiting_ok()) by {
        assert forall|x: int, j: int|
            0 <= x < e.waiting.len() && 0 <= j < e.waiting[x].len() implies (
        #[trigger] e.waiting[x][j]) < e.waiting.len() by {
            if x == w && j == st.waiting[x].len() {
            } else {
                assert(e.waiting[x][j] == st.waiting[x][j]);
            }
        }
        assert forall|x: int| 0 <= x < e.waiting.len() && (#[trigger] e.waiting[x]).len() > 0 implies e.blocked[x] by {
            if x != w {
                assert(e.waiting[x] == st.waiting[x]);
            }
        }
        assert forall|x: int, j: int|
            0 <= x < e.waiting.len() && 0 <= j < e.waiting[x].len() && e.stack.contains(
                #[trigger] e.waiting[x][j],
            ) implies e.pushed[x] < e.pushed[e.waiting[x][j] as int] by {
            if x == w && j == st.waiting[x].len() {
            } else {
                assert(e.waiting[x][j] == st.waiting[x][j]);
            }
        }
        assert forall|x: int, j: int|
            0 <= x < e.waiting.len() && 0 <= j < e.waiting[x].len() && !e.stack.contains(
                #[trigger] e.waiting[x][j],
            ) && e.blocked[e.waiting[x][j] as int] implies e.popped[e.waiting[x][j] as int]
            > e.pushed[x] by {
            if x == w && j == st.waiting[x].len() {
            } else {
                assert(e.waiting[x][j] == st.waiting[x][j]);
            }
        }
    }
}

/// Releasing the last node of the path, or a node that may be released,
/// keeps all of the invariant but that the last node of the path is blocked.
proof fn lemma_release(g: &DiGraph, st: SearchState, start: usize, u: usize)
    requires
        st.inv_releasing(g, start),
        st.stack.len() > 0,
        u == st.stack.last() || st.releasable(u),
    ensures
        st.release(u).inv_releasing(g, start),
{
    reveal(SearchState::inv_releasing);
    reveal(SearchState::inv);
    let e = st.release(u);
    assert(e.waiting_ok()) by {
        assert forall|x: int, j: int|
            0 <= x < e.waiting.len() && 0 <= j < e.waiting[x].len() implies (
        #[trigger] e.waiting[x][j]) < e.waiting.len() by {
            assert(e.waiting[x][j] == st.waiting[x][j]);
        }
        assert forall|x: int| 0 <= x < e.waiting.len() && (#[trigger] e.waiting[x]).len() > 0 implies e.blocked[x] by {
            assert(e.waiting[x] == st.waiting[x]);
        }
        assert forall|x: int, j: int|
            0 <= x < e.waiting.len() && 0 <= j < e.waiting[x].len() && e.stack.contains(
                #[trigger] e.waiting[x][j],
            ) implies e.pushed[x] < e.pushed[e.waiting[x][j] as int] by {
            assert(e.waiting[x][j] == st.waiting[x][j]);
        }
        assert forall|x: int, j: int|
            0 <= x < e.waiting.len() && 0 <= j < e.waiting[x].len() && !e.stack.contains(
                #[trigger] e.waiting[x][j],
            ) && e.blocked[e.waiting[x][j] as int] implies e.popped[e.waiting[x][j] as int]
            > e.pushed[x] by {
            assert(e.waiting[x][j] == st.waiting[x][j]);
        }
    }
    assert(e.path_blocked(e.stack.len() - 1)) by {
        assert forall|i: int| 0 <= i < e.stack.len() - 1 implies e.blocked[
            #[trigger] e.stack[i] as int
        ] by {
            assert(st.blocked[st.stack[i] as int]);
            if st.stack[i] == u {
                assert(st.stack.contains(u));
            }
        }
    }
}

/// A blocked node on the waiting list of a node that is being released may
/// be released too.
proof fn lemma_waiting_releasable(g: &DiGraph, st: SearchState, start: usize, u: usize, j: int)
    requires
        st.inv_releasing(g, start),
        st.stack.len() > 0,
        g.has_node(u),
        u == st.stack.last() || st.releasable(u),
        0 <= j < st.waiting[u as int].len(),
        st.blocked[st.waiting[u as int][j] as int],
    ensures
        st.releasable(st.waiting[u as int][j]),
{
    reveal(SearchState::inv_releasing);
    reveal(SearchState::inv);
    let w = st.waiting[u as int][j];
    let m = st.stack.len() - 1;
    let top = st.stack.last();
    assert(st.stack[m] == top);
    assert(st.pushed[u as int] >= st.pushed[top as int]);
    if st.stack.contains(w) {
        let i = choose|i: int| 0 <= i < st.stack.len() && st.stack[i] == w;
        assert(st.pushed[u as int] < st.pushed[w as int]);
        if i < m {
            assert(st.pushed[st.stack[i] as int] < st.pushed[st.stack[m] as int]);
        }
        assert(false);
    }
    assert(st.popped[w as int] > st.pushed[u as int]);
    assert(st.popped[w as int] > st.pushed[st.stack[m] as int]);
}

/// The nodes of `deps` from position `from` on, as a set.
pub open spec fn rest_of(deps: Seq<usize>, from: int) -> Set<usize> {
    Set::new(|x: usize| exists|k: int| from <= k < deps.len() && deps[k] == x)
}

/// The blocked nodes off the path stay settled when a node joins the path.
proof fn lemma_enter_settled(g: &DiGraph, st: SearchState, start: usize, v: usize)
    requires
        g.wf(),
        st.sized(g.spec_len()),
        st.settled_ok(g, start, Set::empty()),
        g.has_node(v),
        !st.blocked[v as int],
    ensures
        st.enter(v).settled_ok(g, start, Set::empty()),
{
    g.lemma_wf();
    let e = st.enter(v);
    assert forall|x: usize, j: int|
        g.has_node(x) && e.blocked[x as int] && !e.stack.contains(x) && !Set::<usize>::empty().contains(
            x,
        ) && 0 <= j < g.succs(x).len() && start <= #[trigger] g.succs(x)[j] implies {
        let w = g.succs(x)[j];
        w != start && e.blocked[w as int] && e.waiting[w as int].contains(x)
    } by {
        let w = g.succs(x)[j];
        assert(g.has_node(w));
        if x == v {
            assert(e.stack[st.stack.len() as int] == v);
        } else {
            if st.stack.contains(x) {
                let i = choose|i: int| 0 <= i < st.stack.len() && st.stack[i] == x;
                assert(e.stack[i] == x);
            }
        }
    }
}

/// When the last node has left the path, the blocked nodes off the path
/// are settled but for that node; and with it, where it is not blocked.
proof fn lemma_leave_settled(g: &DiGraph, st: SearchState, start: usize)
    requires
        g.wf(),
        st.sized(g.spec_len()),
        st.stack.len() > 0,
        st.stack.no_duplicates(),
        st.settled_ok(g, start, Set::empty()),
    ensures
        st.leave().settled_ok(g, start, Set::empty().insert(st.stack.last())),
        !st.blocked[st.stack.last() as int] ==> st.leave().settled_ok(g, start, Set::empty()),
{
    g.lemma_wf();
    let e = st.leave();
    let v = st.stack.last();
    assert forall|x: usize| x != v && !e.stack.contains(x) implies !st.stack.contains(x) by {
        if st.stack.contains(x) {
            let i = choose|i: int| 0 <= i < st.stack.len() && st.stack[i] == x;
            assert(e.stack[i] == x);
        }
    }
    assert forall|x: usize, j: int|
        g.has_node(x) && e.blocked[x as int] && !e.stack.contains(x) && !Set::<usize>::empty().insert(
            v,
        ).contains(x) && 0 <= j < g.succs(x).len() && start <= #[trigger] g.succs(x)[j] implies {
        let w = g.succs(x)[j];
        w != start && e.blocked[w as int] && e.waiting[w as int].contains(x)
    } by {
        assert(x != v);
        assert(!st.stack.contains(x));
    }
    if !st.blocked[v as int] {
        assert forall|x: usize, j: int|
            g.has_node(x) && e.blocked[x as int] && !e.stack.contains(x) && !Set::<
                usize,
            >::empty().contains(x) && 0 <= j < g.succs(x).len() && start <= #[trigger] g.succs(
                x,
            )[j] implies {
            let w = g.succs(x)[j];
            w != start && e.blocked[w as int] && e.waiting[w as int].contains(x)
        } by {
            assert(x != v);
            assert(!st.stack.contains(x));
        }
    }
}

/// Putting a node on a waiting list keeps the blocked nodes settled, and
/// keeps on every list what was on it.
proof fn lemma_note_settled(
    g: &DiGraph,
    st: SearchState,
    start: usize,
    w: usize,
    v: usize,
    pending: Set<usize>,
)
    requires
        g.wf(),
        st.sized(g.spec_len()),
        g.has_node(w),
        st.settled_ok(g, start, pending),
    ensures
        st.note(w, v).settled_ok(g, start, pending),
        st.note(w, v).waiting[w as int].contains(v),
        forall|x: usize, y: usize|
            g.has_node(x) && st.waiting[x as int].contains(y) ==> #[trigger] st.note(w, v).waiting[x as int].contains(
                y,
            ),
{
    g.lemma_wf();
    let e = st.note(w, v);
    assert(e.waiting[w as int][st.waiting[w as int].len() as int] == v);
    assert forall|x: usize, y: usize|
        g.has_node(x) && st.waiting[x as int].contains(y) implies #[trigger] e.waiting[x as int].contains(
        y,
    ) by {
        let i = choose|i: int| 0 <= i < st.waiting[x as int].len() && st.waiting[x as int][i] == y;
        assert(e.waiting[x as int][i] == y);
    }
    assert forall|x: usize, j: int|
        g.has_node(x) && e.blocked[x as int] && !e.stack.contains(x) && !pending.contains(x) && 0
            <= j < g.succs(x).len() && start <= #[trigger] g.succs(x)[j] implies {
        let t = g.succs(x)[j];
        t != start && e.blocked[t as int] && e.waiting[t as int].contains(x)
    } by {
        let t = g.succs(x)[j];
        assert(g.has_node(t));
        assert(st.waiting[t as int].contains(x));
        assert(e.waiting[t as int].contains(x));
    }
}

/// A node held back as pending is settled once it waits on all its
/// successors from `start` on, which are blocked and none of them `start`.
proof fn lemma_settle_pending(g: &DiGraph, st: SearchState, start: usize, v: usize)
    requires
        st.settled_ok(g, start, Set::empty().insert(v)),
        forall|j: int|
            0 <= j < g.succs(v).len() && start <= #[trigger] g.succs(v)[j] ==> g.succs(v)[j] != start
                && st.blocked[g.succs(v)[j] as int] && st.waiting[g.succs(v)[j] as int].contains(v),
    ensures
        st.settled_ok(g, start, Set::empty()),
{
    assert forall|x: usize, j: int|
        g.has_node(x) && st.blocked[x as int] && !st.stack.contains(x) && !Set::<usize>::empty().contains(
            x,
        ) && 0 <= j < g.succs(x).len() && start <= #[trigger] g.succs(x)[j] implies {
        let w = g.succs(x)[j];
        w != start && st.blocked[w as int] && st.waiting[w as int].contains(x)
    } by {
        if x != v {
            assert(!Set::<usize>::empty().insert(v).contains(x));
        }
    }
}

/// When a node is released, the blocked nodes off the path stay settled
/// but for those that waited on it.
proof fn lemma_release_settled(
    g: &DiGraph,
    st: SearchState,
    start: usize,
    u: usize,
    pending: Set<usize>,
)
    requires
        g.wf(),
        st.sized(g.spec_len()),
        g.has_node(u),
        st.settled_ok(g, start, pending),
    ensures
        st.release(u).settled_ok(g, start, pending.remove(u).union(rest_of(st.waiting[u as int], 0))),
{
    g.lemma_wf();
    let e = st.release(u);
    let deps = st.waiting[u as int];
    let next = pending.remove(u).union(rest_of(deps, 0));
    assert forall|x: usize, j: int|
        g.has_node(x) && e.blocked[x as int] && !e.stack.contains(x) && !next.contains(x) && 0 <= j
            < g.succs(x).len() && start <= #[trigger] g.succs(x)[j] implies {
        let w = g.succs(x)[j];
        w != start && e.blocked[w as int] && e.waiting[w as int].contains(x)
    } by {
        let w = g.succs(x)[j];
        assert(g.has_node(w));
        assert(x != u);
        assert(!pending.contains(x));
        assert(st.waiting[w as int].contains(x));
        if w == u {
            let k = choose|k: int| 0 <= k < deps.len() && deps[k] == x;
            assert(rest_of(deps, 0).contains(x));
        }
    }
}

/// Along a cycle that leaves the path for a blocked node, every further
/// node is blocked and off the path.
proof fn lemma_blocked_chain(g: &DiGraph, st: SearchState, start: usize, c: Seq<usize>, k: int)
    requires
        g.wf(),
        st.settled_ok(g, start, Set::empty()),
        st.stack.len() > 0,
        closes_through(g, c, st.stack),
        c[0] == start,
        st.stack.len() < c.len(),
        st.blocked[c[st.stack.len() as int] as int],
        st.stack.len() <= k < c.len(),
    ensures
        st.blocked[c[k] as int],
        !st.stack.contains(c[k]),
    decreases k,
{
    let m = st.stack.len() as int;
    assert(!st.stack.contains(c[k])) by {
        if st.stack.contains(c[k]) {
            let i = choose|i: int| 0 <= i < st.stack.len() && st.stack[i] == c[k];
            assert(c.subrange(0, m)[i] == c[i]);
        }
    }
    if k > m {
        lemma_blocked_chain(g, st, start, c, k - 1);
        let x = c[k - 1];
        assert(g.has_edge(c[k - 1], c[k - 1 + 1]));
        let j = choose|j: int| 0 <= j < g.succs(x).len() && g.succs(x)[j] == c[k];
        assert(c[0] <= c[k]);
        assert(start <= g.succs(x)[j]);
    }
}

/// No cycle written from `start` leaves the path for a blocked node.
proof fn lemma_blocked_no_cycle(g: &DiGraph, st: SearchState, start: usize, c: Seq<usize>)
    requires
        g.wf(),
        st.settled_ok(g, start, Set::empty()),
        st.stack.len() > 0,
        closes_through(g, c, st.stack),
        c[0] == start,
        st.stack.len() < c.len(),
    ensures
        !st.blocked[c[st.stack.len() as int] as int],
{
    if st.blocked[c[st.stack.len() as int] as int] {
        let last = c.len() - 1;
        lemma_blocked_chain(g, st, start, c, last);
        let x = c[last];
        assert(g.has_edge(c.last(), c[0]));
        let j = choose|j: int| 0 <= j < g.succs(x).len() && g.succs(x)[j] == c[0];
        assert(start <= g.succs(x)[j]);
        assert(g.succs(x)[j] != start);
    }
}

/// The parts of the invariant that the code of the search reads.
proof fn lemma_inv_facts(g: &DiGraph, st: SearchState, start: usize)
    requires
        st.inv_releasing(g, start) || st.inv(g, start),
    ensures
        st.inv_releasing(g, start),
        st.sized(g.spec_len()),
        g.has_node(start),
        st.stack.no_duplicates(),
        st.stack.len() > 0 ==> st.stack[0] == start,
        st.stack.len() > 0 ==> is_path_from(g, st.stack, start),
        forall|x: int| 0 <= x < st.waiting.len() && (#[trigger] st.waiting[x]).len() > 0 ==> st.blocked[x],
        forall|x: int, j: int|
            0 <= x < st.waiting.len() && 0 <= j < st.waiting[x].len() ==> g.has_node(
                #[trigger] st.waiting[x][j],
            ),
{
    reveal(SearchState::inv_releasing);
    reveal(SearchState::inv);
}

/// The time stamps of a search.
pub struct Stamps {
    pub clock: nat,
    pub pushed: Seq<nat>,
    pub popped: Seq<nat>,
}

/// The working arrays of one search: which nodes are blocked, who waits on
/// each node, and the path from the start to the node in hand.
pub(crate) struct Search {
    blocked: Vec<bool>,
    waiting: Vec<Vec<usize>>,
    stack: Vec<usize>,
    stamps: Ghost<Stamps>,
}

impl View for Search {
    type V = SearchState;

    closed spec fn view(&self) -> SearchState {
        SearchState {
            blocked: self.blocked@,
            waiting: Seq::new(self.waiting@.len(), |i: int| self.waiting@[i]@),
            stack: self.stack@,
            clock: self.stamps@.clock,
            pushed: self.stamps@.pushed,
            popped: self.stamps@.popped,
        }
    }
}

/// Whether `list` holds `x`.
fn holds(list: &Vec<usize>, x: usize) -> (found: bool)
    ensures
        found == list@.contains(x),
{
    let mut i: usize = 0;
    while i < list.len()
        invariant
            i <= list.len(),
            forall|k: int| 0 <= k < i ==> list@[k] != x,
        decreases list.len() - i,
    {
        if list[i] == x {
            return true;
        }
        i += 1;
    }
    false
}

/// A copy of `path`.
fn copy_path(path: &Vec<usize>) -> (copy: Vec<usize>)
    ensures
        copy@ == path@,
{
    let mut copy: Vec<usize> = Vec::new();
    let mut i: usize = 0;
    while i < path.len()
        invariant
            i <= path.len(),
            copy@ == path@.subrange(0, i as int),
        decreases path.len() - i,
    {
        copy.push(path[i]);
        assert(copy@ == path@.subrange(0, i + 1));
        i += 1;
    }
    assert(path@.subrange(0, path.len() as int) == path@);
    copy
}

/// The nodes of `todo`, as a set.
pub open spec fn members(todo: Seq<usize>) -> Set<usize> {
    Set::new(|x: usize| todo.contains(x))
}

/// Holding back more nodes asks less.
proof fn lemma_settled_wider(
    g: &DiGraph,
    st: SearchState,
    start: usize,
    fewer: Set<usize>,
    more: Set<usize>,
)
    requires
        st.settled_ok(g, start, fewer),
        fewer.subset_of(more),
    ensures
        st.settled_ok(g, start, more),
{
}

/// Nodes that are not blocked need not be held back.
proof fn lemma_settled_drop(
    g: &DiGraph,
    st: SearchState,
    start: usize,
    held: Set<usize>,
    w: usize,
)
    requires
        st.settled_ok(g, start, held),
        !st.blocked[w as int],
    ensures
        st.settled_ok(g, start, held.remove(w)),
{
}

/// Unblocks `u` and, through the waiting lists, every blocked node that
/// waited on a node released here.
fn unblock(
    g: &DiGraph,
    s: &mut Search,
    u: usize,
    Ghost(start): Ghost<usize>,
    Ghost(pending): Ghost<Set<usize>>,
)
    requires
        g.wf(),
        old(s)@.inv_releasing(g, start),
        old(s)@.settled_ok(g, start, pending),
        old(s)@.stack.len() > 0,
        g.has_node(u),
        u == old(s)@.stack.last() || old(s)@.releasable(u),
    ensures
        final(s)@.inv_releasing(g, start),
        final(s)@.settled_ok(g, start, pending.remove(u)),
        final(s)@.stack == old(s)@.stack,
        final(s)@.clock == old(s)@.clock,
        final(s)@.pushed == old(s)@.pushed,
        final(s)@.popped == old(s)@.popped,
        forall|i: int|
            0 <= i < old(s)@.blocked.len() ==> !#[trigger] final(s)@.blocked[i] || old(
                s,
            )@.blocked[i],
        !final(s)@.blocked[u as int],
{
    let ghost entry = s@;
    let ghost base = pending.remove(u);
    let mut todo: Vec<usize> = Vec::new();
    todo.push(u);
    proof {
        lemma_inv_facts(g, entry, start);
        assert(todo@[0] == u);
        assert(members(todo@).contains(u));
        lemma_settled_wider(g, entry, start, pending, base.union(members(todo@)));
    }
    while todo.len() > 0
        invariant
            g.wf(),
            entry == old(s)@,
            entry.stack.len() > 0,
            base == pending.remove(u),
            entry.sized(g.spec_len()),
            s@.sized(g.spec_len()),
            g.has_node(u),
            s@.inv_releasing(g, start),
            s@.settled_ok(g, start, base.union(members(todo@))),
            s@.stack == entry.stack,
            s@.clock == entry.clock,
            s@.pushed == entry.pushed,
            s@.popped == entry.popped,
            forall|k: int|
                0 <= k < entry.blocked.len() ==> !#[trigger] s@.blocked[k] || entry.blocked[k],
            forall|k: int|
                0 <= k < todo@.len() ==> g.has_node(#[trigger] todo@[k]) && (todo@[k]
                    == entry.stack.last() || entry.releasable(todo@[k])),
            !s@.blocked[u as int] || (todo@.len() == 1 && todo@[0] == u),
        decreases count_true(s@.blocked), todo@.len(),
    {
        let ghost waiting_before = todo@;
        let x = todo.pop().unwrap();
        let ghost before = s@;
        let ghost rest = todo@;
        proof {
            lemma_inv_facts(g, before, start);
            assert(waiting_before[waiting_before.len() - 1] == x);
            assert(before.releasable(x) == entry.releasable(x));
        }
        s.blocked[x] = false;
        let mut deps: Vec<usize> = Vec::new();
        std::mem::swap(&mut deps, &mut s.waiting[x]);
        let ghost released = s@;
        proof {
            assert(released.waiting =~= before.release(x).waiting);
            assert(released == before.release(x));
            lemma_release(g, before, start, x);
            lemma_release_settled(g, before, start, x, base.union(members(waiting_before)));
            lemma_count_true_shrinks(before.blocked, released.blocked, x as int);
            lemma_inv_facts(g, released, start);
            let got = base.union(members(waiting_before)).remove(x).union(rest_of(deps@, 0));
            let want = base.union(members(rest)).union(rest_of(deps@, 0));
            assert forall|y: usize| got.contains(y) implies want.contains(y) by {
                if members(waiting_before).contains(y) && y != x {
                    let k = choose|k: int| 0 <= k < waiting_before.len() && waiting_before[k] == y;
                    assert(rest[k] == y);
                }
            }
            lemma_settled_wider(g, released, start, got, want);
            if !before.blocked[x as int] {
                assert(deps@.len() == 0);
            }
        }
        let mut i: usize = 0;
        while i < deps.len()
            invariant
                g.wf(),
                i <= deps.len(),
                deps@ == before.waiting[x as int],
                entry.sized(g.spec_len()),
                before.sized(g.spec_len()),
                released.sized(g.spec_len()),
                before.inv_releasing(g, start),
                before.stack.len() > 0,
                before.stack == entry.stack,
                before.pushed == entry.pushed,
                g.has_node(x),
                x == before.stack.last() || before.releasable(x),
                released == before.release(x),
                released.inv_releasing(g, start),
                s@ == released,
                base == pending.remove(u),
                s@.settled_ok(g, start, base.union(members(todo@)).union(rest_of(deps@, i as int))),
                forall|k: int|
                    0 <= k < todo@.len() ==> g.has_node(#[trigger] todo@[k]) && (todo@[k]
                        == entry.stack.last() || entry.releasable(todo@[k])),
                before.blocked[x as int] || todo@.len() == rest.len(),
                todo@.len() >= rest.len(),
            decreases deps.len() - i,
        {
            let w = deps[i];
            let ghost listed = todo@;
            proof {
                lemma_inv_facts(g, before, start);
                lemma_inv_facts(g, released, start);
                assert(g.has_node(before.waiting[x as int][i as int]));
            }
            if s.blocked[w] {
                proof {
                    lemma_waiting_releasable(g, before, start, x, i as int);
                    assert(entry.releasable(w));
                }
                todo.push(w);
                proof {
                    let got = base.union(members(listed)).union(rest_of(deps@, i as int));
                    let want = base.union(members(todo@)).union(rest_of(deps@, i + 1));
                    assert forall|y: usize| got.contains(y) implies want.contains(y) by {
                        if members(listed).contains(y) {
                            let k = choose|k: int| 0 <= k < listed.len() && listed[k] == y;
                            assert(todo@[k] == y);
                        }
                        if rest_of(deps@, i as int).contains(y) {
                            let k = choose|k: int| i <= k < deps@.len() && deps@[k] == y;
                            if k == i {
                                assert(todo@[listed.len() as int] == y);
                            }
                        }
                    }
                    lemma_settled_wider(g, released, start, got, want);
                }
            } else {
                proof {
                    let got = base.union(members(listed)).union(rest_of(deps@, i as int));
                    let want = base.union(members(todo@)).union(rest_of(deps@, i + 1));
                    lemma_settled_drop(g, released, start, got, w);
                    assert forall|y: usize| got.remove(w).contains(y) implies want.contains(y) by {
                        if rest_of(deps@, i as int).contains(y) {
                            let k = choose|k: int| i <= k < deps@.len() && deps@[k] == y;
                            assert(k > i);
                        }
                    }
                    lemma_settled_wider(g, released, start, got.remove(w), want);
                }
            }
            i += 1;
        }
        proof {
            assert(base.union(members(todo@)).union(rest_of(deps@, deps@.len() as int)) =~= base.union(
                members(todo@),
            ));
            assert forall|k: int| 0 <= k < entry.blocked.len() implies !#[trigger] s@.blocked[k]
                || entry.blocked[k] by {
                assert(!before.blocked[k] || entry.blocked[k]);
            }
        }
    }
    proof {
        assert(base.union(members(todo@)) =~= base);
    }
}

/// The invariant says that every node of the path is blocked.
proof fn lemma_inv_blocked(g: &DiGraph, st: SearchState, start: usize)
    requires
        st.inv(g, start),
    ensures
        forall|i: int| 0 <= i < st.stack.len() ==> st.blocked[#[trigger] st.stack[i] as int],
{
    reveal(SearchState::inv);
}

/// Puts the node `v`, which an edge from the end of the path leads to and
/// which is not blocked, on the path and blocks it.
fn enter(g: &DiGraph, s: &mut Search, v: usize, Ghost(start): Ghost<usize>)
    requires
        g.wf(),
        old(s)@.inv(g, start),
        old(s)@.settled_ok(g, start, Set::empty()),
        g.has_node(v),
        start <= v,
        !old(s)@.blocked[v as int],
        old(s)@.stack.len() == 0 ==> v == start,
        old(s)@.stack.len() > 0 ==> g.has_edge(old(s)@.stack.last(), v),
    ensures
        final(s)@ == old(s)@.enter(v),
        final(s)@.inv(g, start),
        final(s)@.settled_ok(g, start, Set::empty()),
        final(s)@.sized(g.spec_len()),
        old(s)@.stack.len() < g.spec_len(),
        !old(s)@.stack.contains(v),
{
    let ghost entry = s@;
    proof {
        lemma_inv_facts(g, entry, start);
        lemma_enter(g, entry, start, v);
        lemma_enter_settled(g, entry, start, v);
        g.lemma_wf();
    }
    s.stack.push(v);
    s.blocked[v] = true;
    s.stamps = Ghost(
        Stamps {
            clock: s.stamps@.clock + 1,
            pushed: s.stamps@.pushed.update(v as int, s.stamps@.clock),
            popped: s.stamps@.popped,
        },
    );
    proof {
        assert(s@.waiting =~= entry.waiting);
        assert(s@ == entry.enter(v));
        lemma_inv_facts(g, s@, start);
    }
}

/// Takes the last node off the path. Where it is still blocked, it has yet
/// to be put on the waiting lists of its successors.
fn leave(g: &DiGraph, s: &mut Search, Ghost(start): Ghost<usize>) -> (v: usize)
    requires
        g.wf(),
        old(s)@.inv_releasing(g, start),
        old(s)@.settled_ok(g, start, Set::empty()),
        old(s)@.stack.len() > 0,
    ensures
        v == old(s)@.stack.last(),
        final(s)@ == old(s)@.leave(),
        final(s)@.inv(g, start),
        final(s)@.sized(g.spec_len()),
        final(s)@.settled_ok(g, start, Set::empty().insert(v)),
        !old(s)@.blocked[v as int] ==> final(s)@.settled_ok(g, start, Set::empty()),
        !final(s)@.stack.contains(v),
        forall|x: int|
            0 <= x < final(s)@.pushed.len() ==> #[trigger] final(s)@.pushed[x] < final(s)@.popped[v as int],
{
    let ghost closing = s@;
    proof {
        lemma_inv_facts(g, closing, start);
    }
    let v = s.stack.pop().unwrap();
    s.stamps = Ghost(
        Stamps {
            clock: s.stamps@.clock + 1,
            pushed: s.stamps@.pushed,
            popped: s.stamps@.popped.update(v as int, s.stamps@.clock),
        },
    );
    proof {
        assert(s@.waiting =~= closing.waiting);
        assert(s@ == closing.leave());
        lemma_leave(g, closing, start);
        lemma_leave_settled(g, closing, start);
        lemma_inv_facts(g, s@, start);
        assert(!s@.stack.contains(v)) by {
            if s@.stack.contains(v) {
                let i = choose|i: int| 0 <= i < s@.stack.len() && s@.stack[i] == v;
                assert(closing.stack[i] == v);
                assert(closing.stack[closing.stack.len() - 1] == v);
            }
        }
    }
    v
}

/// Puts `v`, which has left the path blocked, on the waiting list of each
/// of its successors from `start` on, so that it is released when one of
/// them is.
fn wait_on_successors(g: &DiGraph, s: &mut Search, v: usize, start: usize)
    requires
        g.wf(),
        g.has_node(v),
        old(s)@.sized(g.spec_len()),
        old(s)@.inv(g, start),
        old(s)@.settled_ok(g, start, Set::empty().insert(v)),
        !old(s)@.stack.contains(v),
        forall|x: int|
            0 <= x < old(s)@.pushed.len() ==> #[trigger] old(s)@.pushed[x] < old(s)@.popped[v as int],
        forall|k: int|
            0 <= k < g.succs(v).len() ==> quiet(start, old(s)@.blocked, #[trigger] g.succs(v)[k]),
    ensures
        final(s)@.inv(g, start),
        final(s)@.settled_ok(g, start, Set::empty()),
        final(s)@.sized(g.spec_len()),
        final(s)@.stack == old(s)@.stack,
        final(s)@.blocked == old(s)@.blocked,
{
    let ghost left = s@;
    let ghost held = Set::<usize>::empty().insert(v);
    let succ = g.successors_slice(v);
    let mut j: usize = 0;
    while j < succ.len()
        invariant
            g.wf(),
            g.has_node(v),
            j <= succ.len(),
            succ@ == g.succs(v),
            held == Set::<usize>::empty().insert(v),
            s@.sized(g.spec_len()),
            s@.inv(g, start),
            s@.settled_ok(g, start, held),
            s@.stack == left.stack,
            s@.blocked == left.blocked,
            s@.pushed == left.pushed,
            s@.popped == left.popped,
            !left.stack.contains(v),
            forall|x: int| 0 <= x < left.pushed.len() ==> #[trigger] left.pushed[x] < left.popped[v as int],
            forall|k: int| 0 <= k < succ@.len() ==> quiet(start, left.blocked, #[trigger] succ@[k]),
            forall|k: int|
                0 <= k < j && start <= #[trigger] succ@[k] ==> s@.waiting[succ@[k] as int].contains(v),
        decreases succ.len() - j,
    {
        let w = succ[j];
        let ghost before = s@;
        proof {
            g.lemma_wf();
            lemma_inv_facts(g, s@, start);
            assert(g.has_node(g.succs(v)[j as int]));
            assert(quiet(start, left.blocked, succ@[j as int]));
        }
        if w >= start {
            if !holds(&s.waiting[w], v) {
                s.waiting[w].push(v);
                proof {
                    assert(s@.waiting =~= before.note(w, v).waiting);
                    assert(s@ == before.note(w, v));
                    lemma_note(g, before, start, w, v);
                    lemma_note_settled(g, before, start, w, v, held);
                    assert forall|k: int|
                        0 <= k < j + 1 && start <= #[trigger] succ@[k] implies s@.waiting[succ@[k] as int].contains(
                        v,
                    ) by {
                        assert(g.has_node(g.succs(v)[k]));
                        if k < j {
                            assert(before.waiting[succ@[k] as int].contains(v));
                        }
                    }
                }
            }
        }
        j += 1;
    }
    proof {
        assert forall|k: int| 0 <= k < g.succs(v).len() && start <= #[trigger] g.succs(v)[k] implies g.succs(
            v,
        )[k] != start && s@.blocked[g.succs(v)[k] as int] && s@.waiting[g.succs(v)[k] as int].contains(
            v,
        ) by {
            assert(quiet(start, left.blocked, succ@[k]));
        }
        lemma_settle_pending(g, s@, start, v);
    }
}

/// A node of the path with the position of the edge that comes next and
/// the number of cycles that were listed when the node joined the path.
struct Step {
    next: usize,
    base: usize,
}

/// The positions that the frames have come to.
spec fn step_nexts(steps: Seq<Step>) -> Seq<int> {
    Seq::new(steps.len(), |k: int| steps[k].next as int)
}

/// The numbers of cycles that were listed when the frames were opened.
spec fn step_bases(steps: Seq<Step>) -> Seq<int> {
    Seq::new(steps.len(), |k: int| steps[k].base as int)
}

/// Searches from `start` along the nodes that are not smaller: lists every
/// way back to `start`, in the order in which a walk that follows the edges
/// in insertion order finds them, until the cap is reached. The nodes of
/// the path are kept as frames, the one in hand last.
pub(crate) fn circuit(
    g: &DiGraph,
    s: &mut Search,
    cycles: &mut Vec<Vec<usize>>,
    start: usize,
    max_cycles: usize,
)
    requires
        g.wf(),
        old(s)@.inv(g, start),
        old(s)@.settled_ok(g, start, Set::empty()),
        old(s)@.stack.len() == 0,
        g.has_node(start),
        !old(s)@.blocked[start as int],
        old(cycles)@.len() < max_cycles,
    ensures
        final(s)@.stack.len() == 0,
        final(s)@.blocked.len() == old(s)@.blocked.len(),
        final(s)@.waiting.len() == old(s)@.waiting.len(),
        final(cycles)@.len() <= max_cycles,
        cycle_views(final(cycles)@) == cut(
            cycle_views(old(cycles)@) + cycles_on(
                g,
                Seq::empty().push(start),
                start,
                g.succs(start).len(),
            ),
            max_cycles,
        ),
{
    let ghost earlier = cycle_views(cycles@);
    let ghost first = Seq::<usize>::empty().push(start);
    let mut steps: Vec<Step> = Vec::new();
    proof {
        lemma_inv_facts(g, s@, start);
    }
    enter(g, s, start, Ghost(start));
    steps.push(Step { next: 0, base: cycles.len() });
    proof {
        let nexts = step_nexts(steps@);
        let bases = step_bases(steps@);
        assert(s@.stack =~= first);
        assert(step_at_ok(g, start, s@.stack, s@.blocked, nexts, bases, cycles@.len() as int, 0));
        assert(s@.stack.subrange(0, 1) =~= first);
        assert(cycles_on(g, first, start, 0) =~= Seq::<Seq<usize>>::empty());
        assert(listed_by(g, s@.stack, nexts, start, 0) =~= Seq::<Seq<usize>>::empty());
        assert(cycle_views(cycles@) =~= earlier + listed_by(g, s@.stack, nexts, start, 1));
    }
    while steps.len() > 0
        invariant
            g.wf(),
            g.has_node(start),
            first == Seq::<usize>::empty().push(start),
            earlier == cycle_views(old(cycles)@),
            s@.blocked.len() == g.spec_len(),
            s@.waiting.len() == g.spec_len(),
            old(s)@.blocked.len() == g.spec_len(),
            old(s)@.waiting.len() == g.spec_len(),
            steps@.len() == s@.stack.len(),
            cycles@.len() < max_cycles,
            steps@.len() > 0 ==> s@.inv(g, start) && s@.settled_ok(g, start, Set::empty()),
            steps@.len() > 0 ==> steps_ok(
                g,
                start,
                s@.stack,
                s@.blocked,
                step_nexts(steps@),
                step_bases(steps@),
                cycles@.len() as int,
            ),
            steps@.len() > 0 ==> cycle_views(cycles@) == earlier + listed_by(
                g,
                s@.stack,
                step_nexts(steps@),
                start,
                s@.stack.len(),
            ),
            steps@.len() == 0 ==> cycle_views(cycles@) == earlier + cycles_on(
                g,
                first,
                start,
                g.succs(start).len(),
            ),
        decreases search_left(g, s@.stack, step_nexts(steps@)),
    {
        let top = steps.len() - 1;
        let i = steps[top].next;
        let base = steps[top].base;
        let ghost before = s@;
        let ghost nexts = step_nexts(steps@);
        let ghost bases = step_bases(steps@);
        let ghost listed = cycle_views(cycles@);
        proof {
            g.lemma_wf();
            lemma_inv_facts(g, before, start);
            lemma_inv_blocked(g, before, start);
            lemma_path_fits(g, before.stack, start);
            lemma_steps_within(
                g,
                start,
                before.stack,
                before.blocked,
                nexts,
                bases,
                cycles@.len() as int,
            );
            lemma_digits(g, before.stack, nexts);
        }
        let v = s.stack[top];
        let succ = g.successors_slice(v);
        if i < succ.len() {
            let w = succ[i];
            proof {
                assert(g.has_node(g.succs(v)[i as int]));
                assert(g.succs(v).contains(w));
                lemma_listed_step(g, before.stack, nexts, start);
                lemma_left_step(g, before.stack, nexts);
            }
            if w == start {
                let cycle = copy_path(&s.stack);
                cycles.push(cycle);
                steps[top] = Step { next: i + 1, base };
                proof {
                    assert(cycle_views(cycles@) =~= listed.push(before.stack));
                    assert(step_nexts(steps@) =~= nexts.update(top as int, nexts.last() + 1));
                    assert(step_bases(steps@) =~= bases);
                    lemma_steps_found(
                        g,
                        start,
                        before.stack,
                        before.blocked,
                        nexts,
                        bases,
                        listed.len() as int,
                    );
                    assert(cycle_views(cycles@) =~= earlier + listed_by(
                        g,
                        before.stack,
                        step_nexts(steps@),
                        start,
                        before.stack.len(),
                    ));
                }
                if cycles.len() >= max_cycles {
                    proof {
                        lemma_steps_within(
                            g,
                            start,
                            before.stack,
                            before.blocked,
                            step_nexts(steps@),
                            bases,
                            cycles@.len() as int,
                        );
                        lemma_cap_in_flight(
                            g,
                            earlier,
                            before.stack,
                            step_nexts(steps@),
                            start,
                            max_cycles,
                        );
                    }
                    s.stack.clear();
                    return ;
                }
            } else if w > start && !s.blocked[w] {
                enter(g, s, w, Ghost(start));
                steps.push(Step { next: 0, base: cycles.len() });
                proof {
                    assert(step_nexts(steps@) =~= nexts.push(0int));
                    assert(step_bases(steps@) =~= bases.push(listed.len() as int));
                    lemma_steps_enter(
                        g,
                        start,
                        before.stack,
                        before.blocked,
                        nexts,
                        bases,
                        listed.len() as int,
                        w,
                    );
                    lemma_listed_enter(g, before.stack, nexts, start, w);
                    lemma_left_enter(g, before.stack, nexts, w);
                }
            } else {
                steps[top] = Step { next: i + 1, base };
                proof {
                    assert(step_nexts(steps@) =~= nexts.update(top as int, nexts.last() + 1));
                    assert(step_bases(steps@) =~= bases);
                    assert(quiet(start, before.blocked, w));
                    if w > start {
                        assert(g.has_edge(before.stack.last(), w));
                        lemma_blocked_lists_nothing(g, before, start, w);
                    }
                    assert(cycles_on(g, before.stack, start, (i + 1) as nat) =~= cycles_on(
                        g,
                        before.stack,
                        start,
                        i as nat,
                    ));
                    lemma_steps_skip(
                        g,
                        start,
                        before.stack,
                        before.blocked,
                        nexts,
                        bases,
                        listed.len() as int,
                    );
                }
            }
        } else {
            let found = cycles.len() > base;
            if found {
                unblock(g, s, v, Ghost(start), Ghost(Set::empty()));
                proof {
                    assert(Set::<usize>::empty().remove(v) =~= Set::<usize>::empty());
                }
            }
            leave(g, s, Ghost(start));
            if !found {
                proof {
                    assert forall|k: int| 0 <= k < g.succs(v).len() implies quiet(
                        start,
                        s@.blocked,
                        #[trigger] g.succs(v)[k],
                    ) by {
                        assert(quiet(start, before.blocked, g.succs(before.stack.last())[k]));
                    }
                }
                wait_on_successors(g, s, v, start);
            }
            steps.pop();
            if steps.len() > 0 {
                let below = steps.len() - 1;
                let next = steps[below].next;
                let base_below = steps[below].base;
                steps[below] = Step { next: next + 1, base: base_below };
                proof {
                    assert(s@.stack =~= before.stack.drop_last());
                    assert(step_nexts(steps@) =~= nexts.drop_last().update(
                        below as int,
                        nexts[below as int] + 1,
                    ));
                    assert(step_bases(steps@) =~= bases.drop_last());
                    if !found {
                        assert(s@.blocked =~= before.blocked);
                    }
                    lemma_steps_leave(
                        g,
                        start,
                        before.stack,
                        before.blocked,
                        s@.blocked,
                        nexts,
                        bases,
                        listed.len() as int,
                    );
                    lemma_listed_leave(g, before.stack, nexts, start);
                    lemma_left_leave(g, before.stack, nexts);
                }
            } else {
                proof {
                    assert(s@.stack =~= before.stack.drop_last());
                    assert(step_nexts(steps@) =~= nexts.drop_last());
                    assert(before.stack =~= first);
                    assert(before.stack.subrange(0, 1) =~= first);
                    assert(listed_by(g, before.stack, nexts, start, 0) =~= Seq::<Seq<usize>>::empty());
                    assert(listed =~= earlier + cycles_on(g, first, start, g.succs(start).len()));
                    lemma_left_last(g, before.stack, nexts);
                }
            }
        }
    }
}

/// No cycle goes on from the path to a successor that is blocked.
proof fn lemma_blocked_lists_nothing(g: &DiGraph, st: SearchState, start: usize, w: usize)
    requires
        g.wf(),
        st.inv(g, start),
        st.settled_ok(g, start, Set::empty()),
        st.stack.len() > 0,
        g.has_edge(st.stack.last(), w),
        start < w,
        st.blocked[w as int],
    ensures
        st.stack.contains(w) || cycles_on(g, st.stack.push(w), start, g.succs(w).len()).len() == 0,
{
    lemma_inv_facts(g, st, start);
    let longer = st.stack.push(w);
    let sub = cycles_on(g, longer, start, g.succs(w).len());
    if !st.stack.contains(w) && sub.len() > 0 {
        lemma_path_push(g, st.stack, start, w);
        lemma_cycles_on_sound(g, longer, start, g.succs(w).len(), 0);
        let c = sub[0];
        let m = st.stack.len() as int;
        assert(c.subrange(0, m) =~= c.subrange(0, m + 1).subrange(0, m));
        assert(longer.subrange(0, m) =~= st.stack);
        assert(c.subrange(0, m + 1)[m] == c[m]);
        lemma_blocked_no_cycle(g, st, start, c);
    }
}

/// A search that has not looked at any node satisfies the invariant.
proof fn lemma_fresh(g: &DiGraph, st: SearchState, start: usize)
    requires
        g.has_node(start),
        st.sized(g.spec_len()),
        st.stack.len() == 0,
        st.clock == 1,
        forall|i: int| 0 <= i < st.blocked.len() ==> !#[trigger] st.blocked[i],
        forall|i: int| 0 <= i < st.waiting.len() ==> (#[trigger] st.waiting[i]).len() == 0,
        forall|i: int| 0 <= i < st.pushed.len() ==> #[trigger] st.pushed[i] == 0,
        forall|i: int| 0 <= i < st.popped.len() ==> #[trigger] st.popped[i] == 0,
    ensures
        st.inv(g, start),
        st.settled_ok(g, start, Set::empty()),
{
    reveal(SearchState::inv_releasing);
    reveal(SearchState::inv);
}

/// Working arrays for a graph of `n` nodes, with nothing blocked.
pub(crate) fn new_search(n: usize) -> (s: Search)
    ensures
        s@.blocked.len() == n,
        s@.waiting.len() == n,
        s@.stack.len() == 0,
{
    let mut blocked: Vec<bool> = Vec::new();
    let mut waiting: Vec<Vec<usize>> = Vec::new();
    let mut i: usize = 0;
    while i < n
        invariant
            i <= n,
            blocked@.len() == i,
            waiting@.len() == i,
        decreases n - i,
    {
        blocked.push(false);
        waiting.push(Vec::new());
        i += 1;
    }
    Search {
        blocked,
        waiting,
        stack: Vec::new(),
        stamps: Ghost(Stamps { clock: 1, pushed: Seq::empty(), popped: Seq::empty() }),
    }
}

/// Clears the blocking state before the search from `start` begins.
pub(crate) fn reset(g: &DiGraph, s: &mut Search, Ghost(start): Ghost<usize>)
    requires
        g.has_node(start),
        old(s)@.blocked.len() == g.spec_len(),
        old(s)@.waiting.len() == g.spec_len(),
        old(s)@.stack.len() == 0,
    ensures
        final(s)@.inv(g, start),
        final(s)@.settled_ok(g, start, Set::empty()),
        final(s)@.stack.len() == 0,
        final(s)@.blocked.len() == g.spec_len(),
        final(s)@.waiting.len() == g.spec_len(),
        forall|i: int| 0 <= i < final(s)@.blocked.len() ==> !#[trigger] final(s)@.blocked[i],
{
    let n = s.blocked.len();
    let mut i: usize = 0;
    while i < n
        invariant
            i <= n,
            n == s.blocked@.len(),
            n == s.waiting@.len(),
            s.stack@.len() == 0,
            forall|k: int| 0 <= k < i ==> !#[trigger] s.blocked@[k],
            forall|k: int| 0 <= k < i ==> (#[trigger] s.waiting@[k])@.len() == 0,
        decreases n - i,
    {
        s.blocked[i] = false;
        s.waiting[i].clear();
        i += 1;
    }
    s.stamps = Ghost(
        Stamps {
            clock: 1,
            pushed: Seq::new(n as nat, |i: int| 0nat),
            popped: Seq::new(n as nat, |i: int| 0nat),
        },
    );
    proof {
        lemma_fresh(g, s@, start);
    }
}

} // verus!
