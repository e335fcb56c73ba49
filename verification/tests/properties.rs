use bv_graph::algorithms::critical_path::{
    critical_path_heights, critical_path_length, critical_path_nodes,
};
use bv_graph::algorithms::cycle_break::{cycle_break_suggestions, quick_cycle_break_edges};
use bv_graph::algorithms::cycles::{enumerate_cycles, enumerate_cycles_with_info};
use bv_graph::algorithms::scc::{has_cycles, tarjan_scc};
use bv_graph::graph::DiGraph;

/// A graph of `n` nodes named `n0`, `n1`, ... with the given edges.
fn graph_of(n: usize, edges: &[(usize, usize)]) -> DiGraph {
    let mut g = DiGraph::new();
    for i in 0..n {
        g.add_node(&format!("n{}", i));
    }
    for &(u, v) in edges {
        g.add_edge(u, v);
    }
    g
}

/// Whether `cycle` is a closed walk of `g` without a repeated node.
fn is_elementary(g: &DiGraph, cycle: &[usize]) -> bool {
    if cycle.is_empty() {
        return false;
    }
    for i in 0..cycle.len() {
        let next = cycle[(i + 1) % cycle.len()];
        if !g.successors_slice(cycle[i]).contains(&next) {
            return false;
        }
        if cycle[i + 1..].contains(&cycle[i]) {
            return false;
        }
    }
    true
}

#[test]
fn graph_store_keeps_insertion_order() {
    let mut g = DiGraph::new();
    assert!(g.is_empty());
    let a = g.add_node("a");
    let b = g.add_node("b");
    let c = g.add_node("c");
    assert_eq!((a, b, c), (0, 1, 2));
    g.add_edge(a, c);
    g.add_edge(a, b);
    g.add_edge(a, c);
    g.add_edge(c, c);
    assert_eq!(g.len(), 3);
    assert_eq!(g.edge_len(), 4);
    assert_eq!(g.successors_slice(a), &[2, 1, 2]);
    assert_eq!(g.predecessors_slice(c), &[0, 0, 2]);
    assert_eq!(g.predecessors_slice(a), &[] as &[usize]);
    assert_eq!(g.node_id(b), Some("b".to_string()));
    assert_eq!(g.node_id(3), None);
}

#[test]
fn heights_follow_the_highest_predecessor() {
    // 0 -> 1 -> 3, 0 -> 2, 2 -> 3, 3 -> 4, 0 -> 4, 5 alone
    let g = graph_of(6, &[(0, 1), (1, 3), (0, 2), (2, 3), (3, 4), (0, 4)]);
    let heights = critical_path_heights(&g);
    assert_eq!(heights, vec![1, 2, 2, 3, 4, 1]);
    for v in 0..g.len() {
        let below = g.predecessors_slice(v).iter().map(|&u| heights[u]).max().unwrap_or(0);
        assert!(heights[v] >= 1);
        assert_eq!(heights[v], 1 + below);
    }
}

#[test]
fn parallel_edges_do_not_raise_heights() {
    let g = graph_of(2, &[(0, 1), (0, 1), (0, 1)]);
    assert_eq!(critical_path_heights(&g), vec![1, 2]);
}

#[test]
fn self_loop_makes_every_height_zero() {
    let g = graph_of(3, &[(0, 1), (1, 1)]);
    assert_eq!(critical_path_heights(&g), vec![0, 0, 0]);
    assert_eq!(critical_path_length(&g), 0);
    assert_eq!(critical_path_nodes(&g), vec![0, 1, 2]);
}

#[test]
fn critical_length_is_the_greatest_height() {
    let g = graph_of(6, &[(0, 1), (1, 3), (0, 2), (2, 3), (3, 4), (0, 4)]);
    let heights = critical_path_heights(&g);
    assert_eq!(critical_path_length(&g), *heights.iter().max().unwrap());
    assert_eq!(critical_path_length(&g), 4);
    assert_eq!(critical_path_nodes(&g), vec![4]);
    assert_eq!(critical_path_length(&DiGraph::new()), 0);
    assert!(critical_path_nodes(&DiGraph::new()).is_empty());
}

#[test]
fn critical_nodes_come_in_ascending_order() {
    let g = graph_of(5, &[(4, 3), (0, 1), (2, 1)]);
    assert_eq!(critical_path_nodes(&g), vec![1, 3]);
}

#[test]
fn components_partition_the_nodes() {
    // 0 <-> 1, 2 -> 3 -> 4 -> 2, 1 -> 2, 5 -> 5, 6 alone
    let g = graph_of(7, &[(0, 1), (1, 0), (2, 3), (3, 4), (4, 2), (1, 2), (5, 5)]);
    let result = tarjan_scc(&g);
    let mut seen = vec![0usize; g.len()];
    for component in &result.components {
        assert!(!component.is_empty());
        for &v in component {
            seen[v] += 1;
        }
    }
    assert_eq!(seen, vec![1; 7]);
    let mut sets: Vec<Vec<usize>> = result
        .components
        .iter()
        .map(|c| {
            let mut c = c.clone();
            c.sort();
            c
        })
        .collect();
    sets.sort();
    assert_eq!(sets, vec![vec![0, 1], vec![2, 3, 4], vec![5], vec![6]]);
    assert_eq!(result.cycle_count, 2);
    assert!(result.has_cycles);
}

#[test]
fn every_edge_ends_in_the_same_or_an_earlier_component() {
    let edges = [(0, 1), (1, 0), (2, 3), (3, 4), (4, 2), (1, 2), (5, 5), (6, 0), (4, 5)];
    let g = graph_of(7, &edges);
    let result = tarjan_scc(&g);
    let mut place = vec![usize::MAX; g.len()];
    for (k, component) in result.components.iter().enumerate() {
        for &v in component {
            place[v] = k;
        }
    }
    for &(u, v) in &edges {
        assert!(place[v] <= place[u]);
    }
}

#[test]
fn components_come_out_callees_first() {
    // 0 -> 1 -> 2: the traversal closes 2, then 1, then 0.
    let g = graph_of(3, &[(0, 1), (1, 2)]);
    assert_eq!(tarjan_scc(&g).components, vec![vec![2], vec![1], vec![0]]);
}

#[test]
fn has_cycles_counts_components_of_two_or_more() {
    let lone_loop = graph_of(2, &[(0, 0), (0, 1)]);
    let result = tarjan_scc(&lone_loop);
    assert_eq!(result.cycle_count, 0);
    assert!(!result.has_cycles);
    assert!(!has_cycles(&lone_loop));
    assert_eq!(result.has_cycles, result.components.iter().any(|c| c.len() > 1));

    let pair = graph_of(3, &[(0, 1), (1, 0), (2, 2)]);
    let result = tarjan_scc(&pair);
    assert_eq!(result.cycle_count, 1);
    assert!(has_cycles(&pair));
    assert_eq!(result.has_cycles, result.components.iter().any(|c| c.len() > 1));
}

#[test]
fn self_loop_is_listed_as_a_cycle_of_one_node() {
    let g = graph_of(2, &[(0, 1), (1, 1)]);
    assert_eq!(enumerate_cycles(&g, 10), vec![vec![1]]);
    let result = cycle_break_suggestions(&g, 10, 10);
    assert!(result.suggestions.is_empty());
    assert_eq!(result.total_cycles, 0);
    assert!(!result.truncated);
}

#[test]
fn cycles_are_listed_from_their_smallest_node() {
    // 2 -> 0 -> 1 -> 2 and 1 -> 3 -> 1
    let g = graph_of(4, &[(2, 0), (0, 1), (1, 2), (1, 3), (3, 1)]);
    assert_eq!(enumerate_cycles(&g, 100), vec![vec![0, 1, 2], vec![1, 3]]);
}

#[test]
fn every_listed_cycle_is_elementary() {
    let edges = [
        (0, 1),
        (1, 2),
        (2, 0),
        (2, 3),
        (3, 4),
        (4, 2),
        (4, 0),
        (1, 4),
        (3, 3),
        (0, 2),
    ];
    let g = graph_of(5, &edges);
    for cap in 0..12 {
        let cycles = enumerate_cycles(&g, cap);
        assert!(cycles.len() <= cap);
        for cycle in &cycles {
            assert!(!cycle.is_empty());
            assert!(is_elementary(&g, cycle));
            assert_eq!(cycle[0], *cycle.iter().min().unwrap());
        }
    }
    let all = enumerate_cycles(&g, 100);
    assert_eq!(all.len(), 8);
    let mut distinct = all.clone();
    distinct.sort();
    distinct.dedup();
    assert_eq!(distinct.len(), 8);
}

#[test]
fn cap_holds_when_the_last_cycle_is_found_below_the_top() {
    // 0 -> 1 -> 2 -> 0 is found first, and 1 -> 0 would close a second cycle.
    let g = graph_of(3, &[(0, 1), (1, 2), (1, 0), (2, 0)]);
    assert_eq!(enumerate_cycles(&g, 1), vec![vec![0, 1, 2]]);
    assert_eq!(enumerate_cycles(&g, 2), vec![vec![0, 1, 2], vec![0, 1]]);
    assert_eq!(enumerate_cycles(&g, 0), Vec::<Vec<usize>>::new());
}

#[test]
fn parallel_edges_list_a_cycle_once_for_each() {
    let g = graph_of(2, &[(0, 1), (1, 0), (1, 0)]);
    assert_eq!(enumerate_cycles(&g, 10), vec![vec![0, 1], vec![0, 1]]);
}

#[test]
fn blocked_nodes_are_released_when_a_cycle_is_found() {
    // On the way 0 -> 3 -> 2 the search from 1 fails, since 2 is on the
    // path: 1 stays blocked until 2 has found its way back to 0.
    let g = graph_of(4, &[(0, 1), (1, 2), (2, 1), (0, 3), (3, 2), (2, 0)]);
    let mut cycles = enumerate_cycles(&g, 100);
    cycles.sort();
    assert_eq!(cycles, vec![vec![0, 1, 2], vec![0, 3, 2], vec![1, 2]]);
}

#[test]
fn truncated_says_whether_the_cap_was_reached() {
    let g = graph_of(4, &[(0, 1), (1, 0), (2, 3), (3, 2)]);
    for cap in 0..5 {
        let result = enumerate_cycles_with_info(&g, cap);
        assert_eq!(result.count, result.cycles.len());
        assert_eq!(result.count, cap.min(2));
        assert_eq!(result.truncated, result.count >= cap);
    }
    let empty = enumerate_cycles_with_info(&DiGraph::new(), 0);
    assert_eq!(empty.count, 0);
    assert!(empty.truncated);
}

#[test]
fn acyclic_graph_has_nothing_to_break() {
    let g = graph_of(4, &[(0, 1), (0, 2), (1, 3), (2, 3)]);
    let result = cycle_break_suggestions(&g, 10, 100);
    assert!(result.suggestions.is_empty());
    assert_eq!(result.total_cycles, 0);
    assert!(!result.truncated);
    assert!(quick_cycle_break_edges(&g, 10).is_empty());
    let nothing = cycle_break_suggestions(&DiGraph::new(), 10, 100);
    assert!(nothing.suggestions.is_empty());
    assert_eq!(nothing.total_cycles, 0);
}

#[test]
fn suggestions_are_ranked_by_cycles_then_collateral() {
    // 0 -> 1 -> 3 -> 0 and 0 -> 2 -> 3 -> 0 share 3 -> 0; 4 hangs off 1.
    let g = graph_of(5, &[(0, 1), (0, 2), (1, 3), (2, 3), (3, 0), (1, 4)]);
    let result = cycle_break_suggestions(&g, 10, 100);
    assert_eq!(result.total_cycles, 2);
    assert!(!result.truncated);
    let rows: Vec<(usize, usize, usize, usize)> = result
        .suggestions
        .iter()
        .map(|s| (s.from, s.to, s.cycles_broken, s.collateral))
        .collect();
    assert_eq!(
        rows,
        vec![(3, 0, 2, 2), (0, 1, 1, 3), (0, 2, 1, 3), (2, 3, 1, 3), (1, 3, 1, 4)]
    );
    for pair in result.suggestions.windows(2) {
        let (a, b) = (&pair[0], &pair[1]);
        assert!(
            a.cycles_broken > b.cycles_broken
                || (a.cycles_broken == b.cycles_broken && a.collateral <= b.collateral)
        );
    }
    assert_eq!(result.suggestions[0].from_id, Some("n3".to_string()));
    assert_eq!(result.suggestions[0].to_id, Some("n0".to_string()));
}

#[test]
fn self_loop_in_a_larger_component_counts_its_own_cycle() {
    // 0 <-> 1 and 0 -> 0: the cycles are [0, 1] and [0].
    let g = graph_of(2, &[(0, 1), (1, 0), (0, 0)]);
    assert_eq!(enumerate_cycles(&g, 100), vec![vec![0, 1], vec![0]]);
    let result = cycle_break_suggestions(&g, 10, 100);
    assert_eq!(result.total_cycles, 2);
    assert!(!result.truncated);
    let rows: Vec<(usize, usize, usize, usize)> = result
        .suggestions
        .iter()
        .map(|s| (s.from, s.to, s.cycles_broken, s.collateral))
        .collect();
    assert_eq!(rows, vec![(0, 1, 1, 3), (1, 0, 1, 3), (0, 0, 1, 4)]);
}

#[test]
fn suggestions_keep_the_best_when_cut() {
    let g = graph_of(5, &[(0, 1), (0, 2), (1, 3), (2, 3), (3, 0), (1, 4)]);
    let result = cycle_break_suggestions(&g, 2, 100);
    let rows: Vec<(usize, usize)> = result.suggestions.iter().map(|s| (s.from, s.to)).collect();
    assert_eq!(rows, vec![(3, 0), (0, 1)]);
    assert!(cycle_break_suggestions(&g, 0, 100).suggestions.is_empty());
}

#[test]
fn suggestions_report_a_cut_enumeration() {
    let g = graph_of(4, &[(0, 1), (0, 2), (1, 3), (2, 3), (3, 0)]);
    let result = cycle_break_suggestions(&g, 10, 1);
    assert_eq!(result.total_cycles, 1);
    assert!(result.truncated);
    let rows: Vec<(usize, usize, usize)> = result
        .suggestions
        .iter()
        .map(|s| (s.from, s.to, s.cycles_broken))
        .collect();
    assert_eq!(rows, vec![(3, 0, 1), (0, 1, 1), (1, 3, 1), (0, 2, 0), (2, 3, 0)]);
}

#[test]
fn edges_between_two_cyclic_components_are_proposed() {
    // 0 <-> 1 and 2 <-> 3, joined by 1 -> 2, which lies on no cycle.
    let g = graph_of(4, &[(0, 1), (1, 0), (2, 3), (3, 2), (1, 2)]);
    let result = cycle_break_suggestions(&g, 10, 100);
    let bridge: Vec<usize> = result
        .suggestions
        .iter()
        .filter(|s| s.from == 1 && s.to == 2)
        .map(|s| s.cycles_broken)
        .collect();
    assert_eq!(bridge, vec![0]);
    assert_eq!(result.suggestions.len(), 5);
    assert_eq!(result.suggestions[4].from, 1);
    assert_eq!(result.suggestions[4].to, 2);
}

#[test]
fn quick_edges_come_by_ascending_collateral() {
    let g = graph_of(5, &[(0, 1), (0, 2), (1, 3), (2, 3), (3, 0), (1, 4)]);
    let rows: Vec<(usize, usize, usize, usize)> = quick_cycle_break_edges(&g, 10)
        .iter()
        .map(|s| (s.from, s.to, s.cycles_broken, s.collateral))
        .collect();
    assert_eq!(
        rows,
        vec![(3, 0, 1, 2), (0, 1, 1, 3), (0, 2, 1, 3), (2, 3, 1, 3), (1, 3, 1, 4)]
    );
    let cut: Vec<(usize, usize)> =
        quick_cycle_break_edges(&g, 3).iter().map(|s| (s.from, s.to)).collect();
    assert_eq!(cut, vec![(3, 0), (0, 1), (0, 2)]);
}

#[test]
fn long_chains_need_no_deep_call_stack() {
    let n = 200_000;
    let mut down = DiGraph::new();
    let mut up = DiGraph::new();
    for i in 0..n {
        down.add_node(&format!("n{}", i));
        up.add_node(&format!("n{}", i));
    }
    for i in 0..n - 1 {
        down.add_edge(i, i + 1);
        up.add_edge(i + 1, i);
    }
    let result = tarjan_scc(&down);
    assert_eq!(result.components.len(), n);
    assert_eq!(result.components[0], vec![n - 1]);
    assert!(!result.has_cycles);

    let heights = critical_path_heights(&up);
    assert_eq!(heights[0], n);
    assert_eq!(heights[n - 1], 1);
    assert_eq!(critical_path_length(&up), n);
}

#[test]
fn long_ring_needs_no_deep_call_stack() {
    let n = 100_000;
    let mut ring = DiGraph::new();
    for i in 0..n {
        ring.add_node(&format!("n{}", i));
    }
    for i in 0..n {
        ring.add_edge(i, (i + 1) % n);
    }
    let cycles = enumerate_cycles(&ring, 1);
    assert_eq!(cycles.len(), 1);
    assert_eq!(cycles[0].len(), n);
    assert_eq!(cycles[0][n - 1], n - 1);
    let result = tarjan_scc(&ring);
    assert_eq!(result.components.len(), 1);
    assert_eq!(result.cycle_count, 1);
    assert_eq!(critical_path_heights(&ring)[n / 2], 0);
}
