//! Which edges to remove to break cycles: every edge between nodes that lie
//! on cycles, ranked by how many listed cycles it is part of and by how many
//! other edges touch its endpoints.

use crate::algorithms::cycles::{cycle_views, enumerate_cycles_with_info, listing};
use crate::algorithms::scc::{
    SCCResult, are_classes, has_mutual_pair, is_partition, lemma_acyclic_no_pair, tarjan_scc,
};
use crate::graph::DiGraph;
use crate::walks::{is_acyclic, mutually_reachable};
use vstd::prelude::*;

verus! {

/// One edge proposed for removal.
#[derive(Debug, Clone)]
pub struct CycleBreakItem {
    /// The node the edge leaves.
    pub from: usize,
    /// The node the edge enters.
    pub to: usize,
    /// The number of listed cycles that the edge is part of.
    pub cycles_broken: usize,
    /// The out-degree of `from` plus the in-degree of `to`.
    pub collateral: usize,
    /// The identifier of `from`.
    pub from_id: Option<String>,
    /// The identifier of `to`.
    pub to_id: Option<String>,
}

/// The ranked edges, with what the enumeration behind them says.
#[derive(Debug, Clone)]
pub struct CycleBreakResult {
    /// The proposed edges, best first.
    pub suggestions: Vec<CycleBreakItem>,
    /// The number of cycles that were listed.
    pub total_cycles: usize,
    /// Whether the listing stopped at its cap.
    pub truncated: bool,
}

/// A proposed edge as plain values.
pub struct BreakView {
    pub from: usize,
    pub to: usize,
    pub cycles_broken: usize,
    pub collateral: usize,
    pub from_id: Option<Seq<char>>,
    pub to_id: Option<Seq<char>>,
}

/// An optional identifier as plain values.
pub open spec fn id_view(id: Option<String>) -> Option<Seq<char>> {
    match id {
        Some(s) => Some(s@),
        None => None,
    }
}

impl View for CycleBreakItem {
    type V = BreakView;

    open spec fn view(&self) -> BreakView {
        BreakView {
            from: self.from,
            to: self.to,
            cycles_broken: self.cycles_broken,
            collateral: self.collateral,
            from_id: id_view(self.from_id),
            to_id: id_view(self.to_id),
        }
    }
}

/// The proposed edges as plain values.
pub open spec fn views(items: Seq<CycleBreakItem>) -> Seq<BreakView> {
    Seq::new(items.len(), |i: int| items[i]@)
}

/// Whether `a` ranks strictly better than `b`: it breaks more cycles, or as
/// many with less collateral.
pub open spec fn better(a: BreakView, b: BreakView) -> bool {
    a.cycles_broken > b.cycles_broken || (a.cycles_broken == b.cycles_broken && a.collateral
        < b.collateral)
}

/// Whether no item of `s` ranks strictly better than one before it.
pub open spec fn is_ranked(s: Seq<BreakView>) -> bool {
    forall|i: int, j: int| 0 <= i < j < s.len() ==> !better(#[trigger] s[j], #[trigger] s[i])
}

/// The position at which `x` joins the ranked list `s`: that of the first
/// item that `x` is strictly better than, or the end.
pub open spec fn slot(s: Seq<BreakView>, x: BreakView) -> int
    decreases s.len(),
{
    if s.len() == 0 {
        0
    } else if better(x, s[0]) {
        0
    } else {
        1 + slot(s.drop_first(), x)
    }
}

/// The list `s` ranked: its items taken in order, each put behind those that
/// rank as well or better, so that ties keep their order.
pub open spec fn ranked(s: Seq<BreakView>) -> Seq<BreakView>
    decreases s.len(),
{
    if s.len() == 0 {
        Seq::empty()
    } else {
        let r = ranked(s.drop_last());
        r.insert(slot(r, s.last()), s.last())
    }
}

/// The slot is the one position before which nothing is worse than `x` and
/// at which something is.
pub proof fn lemma_slot(s: Seq<BreakView>, x: BreakView, p: int)
    requires
        0 <= p <= s.len(),
        forall|q: int| 0 <= q < p ==> !better(x, #[trigger] s[q]),
        p < s.len() ==> better(x, s[p]),
    ensures
        slot(s, x) == p,
    decreases s.len(),
{
    if s.len() == 0 {
    } else if p == 0 {
    } else {
        assert(!better(x, s[0]));
        let t = s.drop_first();
        assert forall|q: int| 0 <= q < p - 1 implies !better(x, #[trigger] t[q]) by {
            assert(t[q] == s[q + 1]);
        }
        lemma_slot(t, x, p - 1);
    }
}

/// The slot lies within the list, nothing before it is worse than `x`, and
/// what stands at it is.
pub proof fn lemma_slot_props(s: Seq<BreakView>, x: BreakView)
    ensures
        0 <= slot(s, x) <= s.len(),
        forall|q: int| 0 <= q < slot(s, x) ==> !better(x, #[trigger] s[q]),
        slot(s, x) < s.len() ==> better(x, s[slot(s, x)]),
    decreases s.len(),
{
    if s.len() == 0 {
    } else if better(x, s[0]) {
    } else {
        let t = s.drop_first();
        lemma_slot_props(t, x);
        assert forall|q: int| 0 <= q < slot(s, x) implies !better(x, #[trigger] s[q]) by {
            if q > 0 {
                assert(s[q] == t[q - 1]);
            }
        }
    }
}

/// Ranking keeps the number of items, brings no item in and loses none, and
/// leaves the items in rank order.
pub proof fn lemma_ranked(s: Seq<BreakView>)
    ensures
        ranked(s).len() == s.len(),
        is_ranked(ranked(s)),
        ranked(s).to_multiset() == s.to_multiset(),
    decreases s.len(),
{
    broadcast use vstd::seq_lib::to_multiset_build, vstd::seq_lib::to_multiset_insert;

    if s.len() == 0 {
        assert(s =~= ranked(s));
    } else {
        let front = s.drop_last();
        let x = s.last();
        let r = ranked(front);
        lemma_ranked(front);
        lemma_slot_props(r, x);
        let p = slot(r, x);
        let out = r.insert(p, x);
        assert forall|i: int, j: int| 0 <= i < j < out.len() implies !better(
            #[trigger] out[j],
            #[trigger] out[i],
        ) by {
            if j < p {
                assert(out[i] == r[i] && out[j] == r[j]);
            } else if j == p {
                assert(out[i] == r[i]);
            } else if i < p {
                assert(out[i] == r[i] && out[j] == r[j - 1]);
            } else if i == p {
                assert(out[j] == r[j - 1]);
                assert(better(x, r[p]));
                if j - 1 > p {
                    assert(!better(r[j - 1], r[p]));
                }
            } else {
                assert(out[i] == r[i - 1] && out[j] == r[j - 1]);
            }
        }
        assert(s =~= front.push(x));
        assert(out.to_multiset() =~= s.to_multiset());
    }
}

/// A ranked list cut short is ranked.
pub proof fn lemma_ranked_take(s: Seq<BreakView>, limit: int)
    requires
        is_ranked(s),
        0 <= limit <= s.len(),
    ensures
        is_ranked(s.take(limit)),
{
    let t = s.take(limit);
    assert forall|i: int, j: int| 0 <= i < j < t.len() implies !better(
        #[trigger] t[j],
        #[trigger] t[i],
    ) by {
        assert(t[i] == s[i] && t[j] == s[j]);
    }
}

/// Whether `v` lies on a cycle through another node: some other node
/// reaches it and is reached from it.
pub open spec fn on_cycle(g: &DiGraph, v: usize) -> bool {
    exists|u: usize| g.has_node(u) && u != v && #[trigger] mutually_reachable(g, v, u)
}

/// Whether the cycle `c` steps from `from` to `to`, its closing step counted.
pub open spec fn steps_through(c: Seq<usize>, from: usize, to: usize) -> bool {
    exists|i: int|
        0 <= i < c.len() && #[trigger] c[i] == from && c[if i + 1 == c.len() {
            0
        } else {
            i + 1
        }] == to
}

/// A cycle that visits no node twice takes the step from `from` to `to` at
/// one position at most: to count the cycles that take a step is to count
/// the steps.
pub proof fn lemma_steps_once(c: Seq<usize>, from: usize, to: usize, i: int, j: int)
    requires
        c.no_duplicates(),
        0 <= i < c.len(),
        0 <= j < c.len(),
        c[i] == from,
        c[j] == from,
    ensures
        i == j,
{
}

/// The number of cycles among `cycles` that step from `from` to `to`. A
/// cycle of one node steps from that node to itself, so that it counts for
/// the self-loop; and since a cycle visits no node twice, it takes no step
/// twice.
pub open spec fn edge_uses(cycles: Seq<Seq<usize>>, from: usize, to: usize) -> nat
    decreases cycles.len(),
{
    if cycles.len() == 0 {
        0
    } else {
        edge_uses(cycles.drop_last(), from, to) + if steps_through(cycles.last(), from, to) {
            1nat
        } else {
            0nat
        }
    }
}

/// The count that an edge is ranked by: its uses in the listed cycles, or 1
/// where no cycles were listed.
pub open spec fn broken(cycles: Option<Seq<Seq<usize>>>, from: usize, to: usize) -> nat {
    match cycles {
        Some(cs) => edge_uses(cs, from, to),
        None => 1,
    }
}

/// The proposal for the edge from `from` to `to`.
pub open spec fn proposal(
    g: &DiGraph,
    cycles: Option<Seq<Seq<usize>>>,
    from: usize,
    to: usize,
) -> BreakView {
    BreakView {
        from,
        to,
        cycles_broken: broken(cycles, from, to) as usize,
        collateral: (g.succs(from).len() + g.preds(to).len()) as usize,
        from_id: Some(g.id_of(from)),
        to_id: Some(g.id_of(to)),
    }
}

/// The proposals for the first `upto` edges that leave `from`, those left
/// out whose target lies on no cycle.
pub open spec fn node_proposals(
    g: &DiGraph,
    cycles: Option<Seq<Seq<usize>>>,
    from: usize,
    upto: nat,
) -> Seq<BreakView>
    decreases upto,
{
    if upto == 0 {
        Seq::empty()
    } else {
        let to = g.succs(from)[upto - 1];
        let rest = node_proposals(g, cycles, from, (upto - 1) as nat);
        if on_cycle(g, to) {
            rest.push(proposal(g, cycles, from, to))
        } else {
            rest
        }
    }
}

/// The proposals for the edges that leave the first `upto` nodes: every
/// edge whose two ends lie on cycles, by source and then in insertion order.
pub open spec fn graph_proposals(
    g: &DiGraph,
    cycles: Option<Seq<Seq<usize>>>,
    upto: nat,
) -> Seq<BreakView>
    decreases upto,
{
    if upto == 0 {
        Seq::empty()
    } else {
        let from = (upto - 1) as usize;
        let rest = graph_proposals(g, cycles, (upto - 1) as nat);
        if on_cycle(g, from) {
            rest + node_proposals(g, cycles, from, g.succs(from).len())
        } else {
            rest
        }
    }
}

/// A node lies on a cycle through another node exactly when its class of
/// mutual reachability has more than one node.
proof fn lemma_on_cycle(g: &DiGraph, parts: Seq<Seq<usize>>, v: usize)
    requires
        is_partition(g, parts),
        are_classes(g, parts),
        g.has_node(v),
    ensures
        on_cycle(g, v) <==> exists|k: int|
            0 <= k < parts.len() && (#[trigger] parts[k]).len() > 1 && parts[k].contains(v),
{
    if on_cycle(g, v) {
        let u = choose|u: usize| g.has_node(u) && u != v && #[trigger] mutually_reachable(g, v, u);
        let k = choose|k: int| 0 <= k < parts.len() && (#[trigger] parts[k]).contains(v);
        let j = choose|j: int| 0 <= j < parts[k].len() && parts[k][j] == v;
        assert(mutually_reachable(g, parts[k][j], u));
        assert(parts[k].contains(u));
        let j2 = choose|j2: int| 0 <= j2 < parts[k].len() && parts[k][j2] == u;
        assert(parts[k].len() > 1);
    }
    if exists|k: int| 0 <= k < parts.len() && (#[trigger] parts[k]).len() > 1 && parts[k].contains(v) {
        let k = choose|k: int|
            0 <= k < parts.len() && (#[trigger] parts[k]).len() > 1 && parts[k].contains(v);
        let j = choose|j: int| 0 <= j < parts[k].len() && parts[k][j] == v;
        let j2 = if j == 0 {
            1int
        } else {
            0int
        };
        let u = parts[k][j2];
        assert(parts[k].contains(u));
        assert(mutually_reachable(g, parts[k][j], u));
        assert(u != v);
    }
}

/// Where no two different nodes reach each other, nothing is proposed.
proof fn lemma_no_proposals(g: &DiGraph, cycles: Option<Seq<Seq<usize>>>, upto: nat)
    requires
        !has_mutual_pair(g),
        upto <= g.spec_len(),
        g.spec_len() <= usize::MAX,
    ensures
        graph_proposals(g, cycles, upto).len() == 0,
    decreases upto,
{
    if upto > 0 {
        lemma_no_proposals(g, cycles, (upto - 1) as nat);
        let from = (upto - 1) as usize;
        if on_cycle(g, from) {
            let u = choose|u: usize|
                g.has_node(u) && u != from && #[trigger] mutually_reachable(g, from, u);
            assert(has_mutual_pair(g));
        }
    }
}

/// Flags the nodes that lie in a component of more than one node.
fn mark_cycle_nodes(g: &DiGraph, scc: &SCCResult) -> (flags: Vec<bool>)
    requires
        g.wf(),
        is_partition(g, scc.parts()),
        are_classes(g, scc.parts()),
    ensures
        flags@.len() == g.spec_len(),
        forall|v: usize| g.has_node(v) ==> #[trigger] flags@[v as int] == on_cycle(g, v),
{
    let n = g.len();
    let ghost parts = scc.parts();
    let mut flags: Vec<bool> = Vec::new();
    let mut i: usize = 0;
    while i < n
        invariant
            i <= n,
            flags@.len() == i,
            forall|k: int| 0 <= k < i ==> !flags@[k],
        decreases n - i,
    {
        flags.push(false);
        i += 1;
    }
    let mut k: usize = 0;
    while k < scc.components.len()
        invariant
            g.wf(),
            n == g.spec_len(),
            parts == scc.parts(),
            is_partition(g, parts),
            k <= scc.components.len(),
            flags@.len() == n,
            forall|v: usize|
                g.has_node(v) ==> #[trigger] flags@[v as int] == exists|q: int|
                    0 <= q < k && (#[trigger] parts[q]).len() > 1 && parts[q].contains(v),
        decreases scc.components.len() - k,
    {
        let part = &scc.components[k];
        assert(part@ == parts[k as int]);
        if part.len() > 1 {
            let ghost start_flags = flags@;
            let mut j: usize = 0;
            while j < part.len()
                invariant
                    g.wf(),
                    n == g.spec_len(),
                    parts == scc.parts(),
                    is_partition(g, parts),
                    k < scc.components.len(),
                    part@ == parts[k as int],
                    part@.len() > 1,
                    j <= part.len(),
                    flags@.len() == n,
                    forall|v: usize|
                        g.has_node(v) ==> #[trigger] flags@[v as int] == (start_flags[v as int]
                            || exists|q: int| 0 <= q < j && #[trigger] part@[q] == v),
                decreases part.len() - j,
            {
                let v = part[j];
                assert(g.has_node(parts[k as int][j as int]));
                let ghost before = flags@;
                flags[v] = true;
                proof {
                    assert forall|u: usize| g.has_node(u) implies #[trigger] flags@[u as int] == (
                    start_flags[u as int] || exists|q: int| 0 <= q < j + 1 && #[trigger] part@[q] == u) by {
                        if u == v {
                            assert(part@[j as int] == u);
                        } else {
                            assert(flags@[u as int] == before[u as int]);
                            if exists|q: int| 0 <= q < j + 1 && #[trigger] part@[q] == u {
                                let q = choose|q: int| 0 <= q < j + 1 && #[trigger] part@[q] == u;
                                assert(q < j);
                            }
                        }
                    }
                }
                j += 1;
            }
            proof {
                assert forall|v: usize| g.has_node(v) implies #[trigger] flags@[v as int] == exists|
                    q: int,
                | 0 <= q < k + 1 && (#[trigger] parts[q]).len() > 1 && parts[q].contains(v) by {
                    if flags@[v as int] {
                        if start_flags[v as int] {
                            let q = choose|q: int|
                                0 <= q < k && (#[trigger] parts[q]).len() > 1 && parts[q].contains(v);
                            assert(0 <= q < k + 1 && parts[q].len() > 1 && parts[q].contains(v));
                        } else {
                            let q = choose|q: int| 0 <= q < part@.len() && #[trigger] part@[q] == v;
                            assert(parts[k as int].contains(v));
                        }
                    }
                    if exists|q: int|
                        0 <= q < k + 1 && (#[trigger] parts[q]).len() > 1 && parts[q].contains(v) {
                        let q = choose|q: int|
                            0 <= q < k + 1 && (#[trigger] parts[q]).len() > 1 && parts[q].contains(v);
                        if q < k {
                            assert(start_flags[v as int]);
                        } else {
                            let q2 = choose|q2: int| 0 <= q2 < part@.len() && part@[q2] == v;
                            assert(part@[q2] == v);
                        }
                    }
                }
            }
        } else {
            proof {
                assert forall|v: usize| g.has_node(v) implies #[trigger] flags@[v as int] == exists|
                    q: int,
                | 0 <= q < k + 1 && (#[trigger] parts[q]).len() > 1 && parts[q].contains(v) by {
                    if flags@[v as int] {
                        let q = choose|q: int|
                            0 <= q < k && (#[trigger] parts[q]).len() > 1 && parts[q].contains(v);
                        assert(0 <= q < k + 1 && parts[q].len() > 1 && parts[q].contains(v));
                    }
                    if exists|q: int|
                        0 <= q < k + 1 && (#[trigger] parts[q]).len() > 1 && parts[q].contains(v) {
                        let q = choose|q: int|
                            0 <= q < k + 1 && (#[trigger] parts[q]).len() > 1 && parts[q].contains(v);
                        assert(q < k);
                    }
                }
            }
        }
        k += 1;
    }
    proof {
        assert forall|v: usize| g.has_node(v) implies #[trigger] flags@[v as int] == on_cycle(g, v) by {
            lemma_on_cycle(g, parts, v);
        }
    }
    flags
}

/// Whether the cycle `c` steps from `from` to `to`.
fn steps(c: &Vec<usize>, from: usize, to: usize) -> (b: bool)
    ensures
        b == steps_through(c@, from, to),
{
    let mut i: usize = 0;
    while i < c.len()
        invariant
            i <= c.len(),
            forall|q: int|
                0 <= q < i ==> !(#[trigger] c@[q] == from && c@[if q + 1 == c@.len() {
                    0
                } else {
                    q + 1
                }] == to),
        decreases c.len() - i,
    {
        let next = if i + 1 == c.len() {
            0
        } else {
            i + 1
        };
        if c[i] == from && c[next] == to {
            return true;
        }
        i += 1;
    }
    false
}

/// The number of cycles among `cycles` that step from `from` to `to`, a
/// cycle of one node stepping from that node to itself.
fn count_uses(cycles: &Vec<Vec<usize>>, from: usize, to: usize) -> (uses: usize)
    ensures
        uses == edge_uses(cycle_views(cycles@), from, to),
        uses <= cycles@.len(),
{
    let ghost cs = cycle_views(cycles@);
    let mut uses: usize = 0;
    let mut k: usize = 0;
    while k < cycles.len()
        invariant
            k <= cycles.len(),
            cs == cycle_views(cycles@),
            uses <= k,
            uses == edge_uses(cs.subrange(0, k as int), from, to),
        decreases cycles.len() - k,
    {
        proof {
            assert(cs.subrange(0, k + 1).drop_last() =~= cs.subrange(0, k as int));
            assert(cs.subrange(0, k + 1).last() == cycles@[k as int]@);
        }
        if steps(&cycles[k], from, to) {
            uses += 1;
        }
        k += 1;
    }
    proof {
        assert(cs.subrange(0, cs.len() as int) =~= cs);
    }
    uses
}

/// Whether `a` ranks strictly better than `b`.
fn ranks_before(a: &CycleBreakItem, b: &CycleBreakItem) -> (r: bool)
    ensures
        r == better(a@, b@),
{
    a.cycles_broken > b.cycles_broken || (a.cycles_broken == b.cycles_broken && a.collateral
        < b.collateral)
}

/// Puts `item` into the ranked `list`, behind the items that rank as well
/// or better.
fn put(list: &mut Vec<CycleBreakItem>, item: CycleBreakItem)
    ensures
        views(final(list)@) == views(old(list)@).insert(slot(views(old(list)@), item@), item@),
{
    let ghost s = views(list@);
    let mut p: usize = 0;
    while p < list.len() && !ranks_before(&item, &list[p])
        invariant
            p <= list.len(),
            s == views(list@),
            forall|q: int| 0 <= q < p ==> !better(item@, #[trigger] s[q]),
        decreases list.len() - p,
    {
        p += 1;
    }
    proof {
        lemma_slot(s, item@, p as int);
    }
    list.insert(p, item);
    assert(views(list@) =~= s.insert(p as int, item@));
}

/// The cycles that an edge is counted in, where any were listed.
pub open spec fn listed(cycles: Option<&Vec<Vec<usize>>>) -> Option<Seq<Seq<usize>>> {
    match cycles {
        Some(cs) => Some(cycle_views(cs@)),
        None => None,
    }
}

/// Ranks every edge between nodes flagged as lying on cycles and keeps the
/// best `limit` of them.
fn rank_edges(
    g: &DiGraph,
    flags: &Vec<bool>,
    cycles: Option<&Vec<Vec<usize>>>,
    limit: usize,
) -> (list: Vec<CycleBreakItem>)
    requires
        g.wf(),
        flags@.len() == g.spec_len(),
        forall|v: usize| g.has_node(v) ==> #[trigger] flags@[v as int] == on_cycle(g, v),
    ensures
        views(list@) == keep(ranked(graph_proposals(g, listed(cycles), g.spec_len())), limit),
        list@.len() <= limit,
{
    let n = g.len();
    let ghost cs = listed(cycles);
    let mut list: Vec<CycleBreakItem> = Vec::new();
    let mut from: usize = 0;
    proof {
        assert(views(list@) =~= ranked(graph_proposals(g, cs, 0)));
    }
    while from < n
        invariant
            g.wf(),
            n == g.spec_len(),
            cs == listed(cycles),
            from <= n,
            flags@.len() == n,
            forall|v: usize| g.has_node(v) ==> #[trigger] flags@[v as int] == on_cycle(g, v),
            views(list@) == ranked(graph_proposals(g, cs, from as nat)),
        decreases n - from,
    {
        if flags[from] {
            let succ = g.successors_slice(from);
            let ghost base = graph_proposals(g, cs, from as nat);
            let mut j: usize = 0;
            proof {
                assert(base + node_proposals(g, cs, from, 0) =~= base);
            }
            while j < succ.len()
                invariant
                    g.wf(),
                    n == g.spec_len(),
                    cs == listed(cycles),
                    from < n,
                    succ@ == g.succs(from),
                    j <= succ.len(),
                    flags@.len() == n,
                    forall|v: usize| g.has_node(v) ==> #[trigger] flags@[v as int] == on_cycle(g, v),
                    base == graph_proposals(g, cs, from as nat),
                    views(list@) == ranked(base + node_proposals(g, cs, from, j as nat)),
                decreases succ.len() - j,
            {
                let to = succ[j];
                proof {
                    g.lemma_wf();
                    assert(g.has_node(g.succs(from)[j as int]));
                }
                if flags[to] {
                    let cycles_broken = match cycles {
                        Some(found) => count_uses(found, from, to),
                        None => 1,
                    };
                    let collateral = g.successors_slice(from).len() + g.predecessors_slice(to).len();
                    let item = CycleBreakItem {
                        from,
                        to,
                        cycles_broken,
                        collateral,
                        from_id: g.node_id(from),
                        to_id: g.node_id(to),
                    };
                    proof {
                        let so_far = base + node_proposals(g, cs, from, j as nat);
                        let more = base + node_proposals(g, cs, from, (j + 1) as nat);
                        assert(item@ == proposal(g, cs, from, to));
                        assert(more =~= so_far.push(item@));
                        assert(more.drop_last() =~= so_far);
                    }
                    put(&mut list, item);
                }
                j += 1;
            }
        }
        from += 1;
    }
    proof {
        lemma_ranked(graph_proposals(g, cs, n as nat));
    }
    let ghost full = list@;
    list.truncate(limit);
    proof {
        if limit <= full.len() {
            assert(views(list@) =~= views(full).take(limit as int));
        }
    }
    list
}

/// The first `limit` items of `s`, or all of them where there are fewer.
pub open spec fn keep(s: Seq<BreakView>, limit: usize) -> Seq<BreakView> {
    if limit <= s.len() {
        s.take(limit as int)
    } else {
        s
    }
}

/// Ranks the edges whose removal would break cycles. An edge is proposed
/// where both its ends lie on a cycle through another node. It is ranked
/// by the number of listed cycles that step along it, the cycles being
/// listed under the cap `max_cycles_to_enumerate`, and among edges of equal
/// count by the out-degree of its source plus the in-degree of its target.
/// The best `limit` proposals are returned. Where no two different nodes
/// reach each other, nothing is listed and nothing proposed.
pub fn cycle_break_suggestions(graph: &DiGraph, limit: usize, max_cycles_to_enumerate: usize) -> (r:
    CycleBreakResult)
    ensures
        r.suggestions@.len() <= limit,
        is_ranked(views(r.suggestions@)),
        !has_mutual_pair(graph) ==> r.suggestions@.len() == 0 && r.total_cycles == 0
            && !r.truncated,
        is_acyclic(graph) ==> r.suggestions@.len() == 0 && r.total_cycles == 0 && !r.truncated,
        has_mutual_pair(graph) ==> {
            let cycles = listing(graph, max_cycles_to_enumerate);
            &&& r.total_cycles == cycles.len()
            &&& r.truncated == (cycles.len() >= max_cycles_to_enumerate)
            &&& views(r.suggestions@) == keep(
                ranked(graph_proposals(graph, Some(cycles), graph.spec_len())),
                limit,
            )
        },
{
    proof {
        use_type_invariant(graph);
    }
    let scc = tarjan_scc(graph);
    proof {
        lemma_acyclic_no_pair(graph);
    }
    if !scc.has_cycles {
        return CycleBreakResult { suggestions: Vec::new(), total_cycles: 0, truncated: false };
    }
    let cycle_info = enumerate_cycles_with_info(graph, max_cycles_to_enumerate);
    let flags = mark_cycle_nodes(graph, &scc);
    let suggestions = rank_edges(graph, &flags, Some(&cycle_info.cycles), limit);
    proof {
        let cycles = listing(graph, max_cycles_to_enumerate);
        let all = ranked(graph_proposals(graph, Some(cycles), graph.spec_len()));
        lemma_ranked(graph_proposals(graph, Some(cycles), graph.spec_len()));
        if limit <= all.len() {
            lemma_ranked_take(all, limit as int);
        }
    }
    CycleBreakResult {
        suggestions,
        total_cycles: cycle_info.count,
        truncated: cycle_info.truncated,
    }
}

/// Ranks the edges whose removal would break cycles without listing any
/// cycle: every proposed edge counts as breaking one cycle, so that the
/// edges come out by the out-degree of their source plus the in-degree of
/// their target, smallest first. The best `limit` proposals are returned.
pub fn quick_cycle_break_edges(graph: &DiGraph, limit: usize) -> (list: Vec<CycleBreakItem>)
    ensures
        views(list@) == keep(ranked(graph_proposals(graph, None, graph.spec_len())), limit),
        list@.len() <= limit,
        forall|i: int| 0 <= i < list@.len() ==> (#[trigger] list@[i]).cycles_broken == 1,
        forall|i: int, j: int|
            0 <= i < j < list@.len() ==> (#[trigger] list@[i]).collateral <= (
            #[trigger] list@[j]).collateral,
        !has_mutual_pair(graph) ==> list@.len() == 0,
{
    proof {
        use_type_invariant(graph);
    }
    let scc = tarjan_scc(graph);
    if !scc.has_cycles {
        proof {
            graph.lemma_wf();
            lemma_no_proposals(graph, None, graph.spec_len());
            assert(ranked(graph_proposals(graph, None, graph.spec_len())) =~= Seq::empty());
        }
        return Vec::new();
    }
    let flags = mark_cycle_nodes(graph, &scc);
    let list = rank_edges(graph, &flags, None, limit);
    proof {
        let all = graph_proposals(graph, None, graph.spec_len());
        lemma_ranked(all);
        lemma_nominal(graph, graph.spec_len());
        let r = ranked(all);
        let kept = keep(r, limit);
        assert forall|i: int| 0 <= i < kept.len() implies (#[trigger] kept[i]).cycles_broken == 1 by {
            assert(kept[i] == r[i]);
            vstd::seq_lib::to_multiset_contains(r, r[i]);
            vstd::seq_lib::to_multiset_contains(all, r[i]);
            assert(r.contains(r[i]));
        }
        assert forall|i: int, j: int| 0 <= i < j < list@.len() implies (#[trigger] list@[i]).collateral
            <= (#[trigger] list@[j]).collateral by {
            assert(views(list@)[i] == list@[i]@ && views(list@)[j] == list@[j]@);
            assert(kept[i] == r[i] && kept[j] == r[j]);
            assert(!better(r[j], r[i]));
            assert(kept[i].cycles_broken == 1 && kept[j].cycles_broken == 1);
        }
        assert forall|i: int| 0 <= i < list@.len() implies (#[trigger] list@[i]).cycles_broken == 1 by {
            assert(views(list@)[i] == list@[i]@);
            assert(kept[i].cycles_broken == 1);
        }
    }
    list
}

/// Where no cycles are listed, every proposal counts one cycle.
proof fn lemma_nominal(g: &DiGraph, upto: nat)
    ensures
        forall|x: BreakView|
            graph_proposals(g, None, upto).contains(x) ==> x.cycles_broken == 1,
    decreases upto,
{
    if upto > 0 {
        lemma_nominal(g, (upto - 1) as nat);
        let from = (upto - 1) as usize;
        lemma_nominal_node(g, from, g.succs(from).len());
        let rest = graph_proposals(g, None, (upto - 1) as nat);
        let here = node_proposals(g, None, from, g.succs(from).len());
        assert forall|x: BreakView| graph_proposals(g, None, upto).contains(x) implies x.cycles_broken
            == 1 by {
            if on_cycle(g, from) {
                let i = choose|i: int| 0 <= i < (rest + here).len() && (rest + here)[i] == x;
                if i < rest.len() {
                    assert(rest[i] == x);
                    assert(rest.contains(x));
                } else {
                    assert(here[i - rest.len()] == x);
                    assert(here.contains(x));
                }
            }
        }
    }
}

/// Where no cycles are listed, every proposal of a node counts one cycle.
proof fn lemma_nominal_node(g: &DiGraph, from: usize, upto: nat)
    ensures
        forall|x: BreakView|
            node_proposals(g, None, from, upto).contains(x) ==> x.cycles_broken == 1,
    decreases upto,
{
    if upto > 0 {
        lemma_nominal_node(g, from, (upto - 1) as nat);
        let rest = node_proposals(g, None, from, (upto - 1) as nat);
        assert forall|x: BreakView| node_proposals(g, None, from, upto).contains(x) implies x.cycles_broken
            == 1 by {
            let all = node_proposals(g, None, from, upto);
            let i = choose|i: int| 0 <= i < all.len() && all[i] == x;
            if i < rest.len() {
                assert(rest[i] == x);
                assert(rest.contains(x));
            }
        }
    }
}

} // verus!
