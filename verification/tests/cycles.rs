use bv_graph::algorithms::cycles::{
    cycle_break_suggestions, enumerate_cycles, enumerate_cycles_with_info, has_cycles,
    quick_cycle_break_edges, tarjan_scc,
};
use bv_graph::graph::DiGraph;

#[test]
fn test_scc_empty() {
    let graph = DiGraph::new();
    let result = tarjan_scc(&graph);
    assert!(result.components.is_empty());
    assert!(!result.has_cycles);
}

#[test]
fn test_scc_single_node() {
    let mut graph = DiGraph::new();
    graph.add_node("a");
    let result = tarjan_scc(&graph);
    assert_eq!(result.components.len(), 1);
    assert_eq!(result.components[0].len(), 1);
    assert!(!result.has_cycles);
}

#[test]
fn test_scc_self_loop() {
    let mut graph = DiGraph::new();
    let a = graph.add_node("a");
    graph.add_edge(a, a);
    let result = tarjan_scc(&graph);
    // Self-loop creates SCC of size 1 with edge to itself
    // Tarjan considers this a cycle
    assert!(result.has_cycles || result.components[0].len() == 1);
}

#[test]
fn test_scc_simple_cycle() {
    // a -> b -> c -> a
    let mut graph = DiGraph::new();
    let a = graph.add_node("a");
    let b = graph.add_node("b");
    let c = graph.add_node("c");
    graph.add_edge(a, b);
    graph.add_edge(b, c);
    graph.add_edge(c, a);

    let result = tarjan_scc(&graph);
    assert!(result.has_cycles);
    assert_eq!(result.cycle_count, 1);
    // One SCC with all 3 nodes
    let big_scc = result.components.iter().find(|c| c.len() > 1);
    assert!(big_scc.is_some());
    assert_eq!(big_scc.unwrap().len(), 3);
}

#[test]
fn test_scc_dag() {
    // a -> b -> c (no cycles)
    let mut graph = DiGraph::new();
    let a = graph.add_node("a");
    let b = graph.add_node("b");
    let c = graph.add_node("c");
    graph.add_edge(a, b);
    graph.add_edge(b, c);

    let result = tarjan_scc(&graph);
    assert!(!result.has_cycles);
    // Each node is its own SCC
    assert_eq!(result.components.len(), 3);
}

#[test]
fn test_scc_two_cycles() {
    // Cycle 1: a -> b -> a
    // Cycle 2: c -> d -> c
    let mut graph = DiGraph::new();
    let a = graph.add_node("a");
    let b = graph.add_node("b");
    let c = graph.add_node("c");
    let d = graph.add_node("d");
    graph.add_edge(a, b);
    graph.add_edge(b, a);
    graph.add_edge(c, d);
    graph.add_edge(d, c);

    let result = tarjan_scc(&graph);
    assert!(result.has_cycles);
    assert_eq!(result.cycle_count, 2);
}

#[test]
fn test_enumerate_empty() {
    let graph = DiGraph::new();
    let cycles = enumerate_cycles(&graph, 100);
    assert!(cycles.is_empty());
}

#[test]
fn test_enumerate_dag() {
    // a -> b -> c (no cycles)
    let mut graph = DiGraph::new();
    let a = graph.add_node("a");
    let b = graph.add_node("b");
    let c = graph.add_node("c");
    graph.add_edge(a, b);
    graph.add_edge(b, c);

    let cycles = enumerate_cycles(&graph, 100);
    assert!(cycles.is_empty());
}

#[test]
fn test_enumerate_simple_cycle() {
    // a -> b -> c -> a
    let mut graph = DiGraph::new();
    let a = graph.add_node("a");
    let b = graph.add_node("b");
    let c = graph.add_node("c");
    graph.add_edge(a, b);
    graph.add_edge(b, c);
    graph.add_edge(c, a);

    let cycles = enumerate_cycles(&graph, 100);
    assert_eq!(cycles.len(), 1);
    assert_eq!(cycles[0].len(), 3);
}

#[test]
fn test_enumerate_two_node_cycle() {
    // a -> b -> a
    let mut graph = DiGraph::new();
    let a = graph.add_node("a");
    let b = graph.add_node("b");
    graph.add_edge(a, b);
    graph.add_edge(b, a);

    let cycles = enumerate_cycles(&graph, 100);
    assert_eq!(cycles.len(), 1);
    assert_eq!(cycles[0].len(), 2);
}

#[test]
fn test_enumerate_max_limit() {
    // Create graph with multiple cycles
    // a <-> b <-> c <-> d with interconnections
    let mut graph = DiGraph::new();
    let a = graph.add_node("a");
    let b = graph.add_node("b");
    let c = graph.add_node("c");
    let d = graph.add_node("d");
    graph.add_edge(a, b);
    graph.add_edge(b, a);
    graph.add_edge(b, c);
    graph.add_edge(c, b);
    graph.add_edge(c, d);
    graph.add_edge(d, c);
    graph.add_edge(d, a);
    graph.add_edge(a, d);

    // Limit to 2 cycles
    let cycles = enumerate_cycles(&graph, 2);
    assert_eq!(cycles.len(), 2);
}

#[test]
fn test_enumerate_diamond_with_back_edge() {
    //     a
    //    / \
    //   b   c
    //    \ /
    //     d -> a (back edge creates cycle)
    let mut graph = DiGraph::new();
    let a = graph.add_node("a");
    let b = graph.add_node("b");
    let c = graph.add_node("c");
    let d = graph.add_node("d");
    graph.add_edge(a, b);
    graph.add_edge(a, c);
    graph.add_edge(b, d);
    graph.add_edge(c, d);
    graph.add_edge(d, a);

    let cycles = enumerate_cycles(&graph, 100);
    // Two cycles: a->b->d->a and a->c->d->a
    assert_eq!(cycles.len(), 2);
}

#[test]
fn test_enumerate_with_info() {
    // a -> b -> a
    let mut graph = DiGraph::new();
    let a = graph.add_node("a");
    let b = graph.add_node("b");
    graph.add_edge(a, b);
    graph.add_edge(b, a);

    let result = enumerate_cycles_with_info(&graph, 100);
    assert_eq!(result.count, 1);
    assert!(!result.truncated);

    // With limit of 1, we should get exactly 1 cycle and not be truncated
    // (since there's only 1 cycle to find)
    let result_one = enumerate_cycles_with_info(&graph, 1);
    assert_eq!(result_one.count, 1);
    // Truncated because we hit the limit (count >= max)
    assert!(result_one.truncated);
}

#[test]
fn test_has_cycles() {
    let mut dag = DiGraph::new();
    let a = dag.add_node("a");
    let b = dag.add_node("b");
    dag.add_edge(a, b);
    assert!(!has_cycles(&dag));

    let mut cyclic = DiGraph::new();
    let x = cyclic.add_node("x");
    let y = cyclic.add_node("y");
    cyclic.add_edge(x, y);
    cyclic.add_edge(y, x);
    assert!(has_cycles(&cyclic));
}

#[test]
fn test_complex_graph() {
    // Multiple interconnected cycles
    let mut graph = DiGraph::new();
    for i in 0..5 {
        graph.add_node(&format!("n{}", i));
    }
    // Create some cycles
    graph.add_edge(0, 1);
    graph.add_edge(1, 2);
    graph.add_edge(2, 0); // Cycle: 0->1->2->0
    graph.add_edge(2, 3);
    graph.add_edge(3, 4);
    graph.add_edge(4, 2); // Cycle: 2->3->4->2

    let scc = tarjan_scc(&graph);
    assert!(scc.has_cycles);

    let cycles = enumerate_cycles(&graph, 100);
    assert!(cycles.len() >= 2);
}

#[test]
fn test_cycle_break_dag() {
    // a -> b -> c (no cycles)
    let mut graph = DiGraph::new();
    let a = graph.add_node("a");
    let b = graph.add_node("b");
    let c = graph.add_node("c");
    graph.add_edge(a, b);
    graph.add_edge(b, c);

    let result = cycle_break_suggestions(&graph, 10, 100);
    assert!(result.suggestions.is_empty());
    assert_eq!(result.total_cycles, 0);
    assert!(!result.truncated);
}

#[test]
fn test_cycle_break_simple() {
    // a -> b -> a
    let mut graph = DiGraph::new();
    let a = graph.add_node("a");
    let b = graph.add_node("b");
    graph.add_edge(a, b);
    graph.add_edge(b, a);

    let result = cycle_break_suggestions(&graph, 10, 100);
    assert_eq!(result.total_cycles, 1);
    assert_eq!(result.suggestions.len(), 2); // Both edges are candidates

    // Both edges participate in 1 cycle
    for s in &result.suggestions {
        assert_eq!(s.cycles_broken, 1);
    }
}

#[test]
fn test_cycle_break_triangle() {
    // a -> b -> c -> a
    let mut graph = DiGraph::new();
    let a = graph.add_node("a");
    let b = graph.add_node("b");
    let c = graph.add_node("c");
    graph.add_edge(a, b);
    graph.add_edge(b, c);
    graph.add_edge(c, a);

    let result = cycle_break_suggestions(&graph, 10, 100);
    assert_eq!(result.total_cycles, 1);
    assert_eq!(result.suggestions.len(), 3); // 3 edges in cycle

    // All edges participate in 1 cycle
    for s in &result.suggestions {
        assert_eq!(s.cycles_broken, 1);
    }
}

#[test]
fn test_cycle_break_shared_edge() {
    //     a
    //    / \
    //   b   c
    //    \ /
    //     d -> a (creates two cycles sharing d->a)
    let mut graph = DiGraph::new();
    let a = graph.add_node("a");
    let b = graph.add_node("b");
    let c = graph.add_node("c");
    let d = graph.add_node("d");
    graph.add_edge(a, b);
    graph.add_edge(a, c);
    graph.add_edge(b, d);
    graph.add_edge(c, d);
    graph.add_edge(d, a); // Shared back edge

    let result = cycle_break_suggestions(&graph, 10, 100);
    assert_eq!(result.total_cycles, 2);

    // d->a should be ranked first (breaks 2 cycles)
    let best = &result.suggestions[0];
    assert_eq!(best.from, d);
    assert_eq!(best.to, a);
    assert_eq!(best.cycles_broken, 2);
}

#[test]
fn test_cycle_break_includes_ids() {
    // a -> b -> a
    let mut graph = DiGraph::new();
    graph.add_node("issue-1");
    graph.add_node("issue-2");
    graph.add_edge(0, 1);
    graph.add_edge(1, 0);

    let result = cycle_break_suggestions(&graph, 10, 100);
    assert!(!result.suggestions.is_empty());

    let s = &result.suggestions[0];
    assert!(s.from_id.is_some());
    assert!(s.to_id.is_some());
}

#[test]
fn test_cycle_break_limit() {
    // Many edges in cycle
    let mut graph = DiGraph::new();
    for i in 0..10 {
        graph.add_node(&format!("n{}", i));
    }
    // Create a 10-node cycle
    for i in 0..10 {
        graph.add_edge(i, (i + 1) % 10);
    }

    let result = cycle_break_suggestions(&graph, 3, 100);
    assert_eq!(result.suggestions.len(), 3); // Limited to 3
}

#[test]
fn test_quick_cycle_break() {
    // a -> b -> a
    let mut graph = DiGraph::new();
    let a = graph.add_node("a");
    let b = graph.add_node("b");
    graph.add_edge(a, b);
    graph.add_edge(b, a);

    let suggestions = quick_cycle_break_edges(&graph, 10);
    assert_eq!(suggestions.len(), 2);

    // Sorted by collateral
    for s in &suggestions {
        assert_eq!(s.cycles_broken, 1); // Heuristic value
    }
}

#[test]
fn test_quick_cycle_break_dag() {
    let mut graph = DiGraph::new();
    let a = graph.add_node("a");
    let b = graph.add_node("b");
    graph.add_edge(a, b);

    let suggestions = quick_cycle_break_edges(&graph, 10);
    assert!(suggestions.is_empty());
}

#[test]
fn test_cycle_break_disconnected_cycles() {
    // Two separate cycles
    // Cycle 1: a -> b -> a
    // Cycle 2: c -> d -> c
    let mut graph = DiGraph::new();
    let a = graph.add_node("a");
    let b = graph.add_node("b");
    let c = graph.add_node("c");
    let d = graph.add_node("d");
    graph.add_edge(a, b);
    graph.add_edge(b, a);
    graph.add_edge(c, d);
    graph.add_edge(d, c);

    let result = cycle_break_suggestions(&graph, 10, 100);
    assert_eq!(result.total_cycles, 2);
    assert_eq!(result.suggestions.len(), 4); // 2 edges per cycle
}

#[test]
fn test_cycle_break_collateral_ordering() {
    // a -> b -> a  (small cycle)
    // a -> c -> d -> a (larger cycle through same node)
    let mut graph = DiGraph::new();
    let a = graph.add_node("a");
    let b = graph.add_node("b");
    let c = graph.add_node("c");
    let d = graph.add_node("d");
    graph.add_edge(a, b);
    graph.add_edge(b, a);
    graph.add_edge(a, c);
    graph.add_edge(c, d);
    graph.add_edge(d, a);

    let result = cycle_break_suggestions(&graph, 10, 100);
    // Should have suggestions sorted by cycles_broken desc, then collateral asc
    // Check that suggestions are not empty
    assert!(!result.suggestions.is_empty());

    // Verify ordering: if same cycles_broken, lower collateral first
    for i in 1..result.suggestions.len() {
        let prev = &result.suggestions[i - 1];
        let curr = &result.suggestions[i];
        if prev.cycles_broken == curr.cycles_broken {
            assert!(prev.collateral <= curr.collateral);
        } else {
            assert!(prev.cycles_broken >= curr.cycles_broken);
        }
    }
}
