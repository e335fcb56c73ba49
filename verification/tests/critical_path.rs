use bv_graph::algorithms::critical_path::{
    critical_path_heights, critical_path_length, critical_path_nodes,
};
use bv_graph::graph::DiGraph;

/// The heights as the floating-point scores that callers compare them with.
fn heights_of(g: &DiGraph) -> Vec<f64> {
    critical_path_heights(g).iter().map(|&h| h as f64).collect()
}

#[test]
fn test_empty_graph() {
    let g = DiGraph::new();
    let heights = heights_of(&g);
    assert!(heights.is_empty());
}

#[test]
fn test_single_node() {
    let mut g = DiGraph::new();
    g.add_node("a");
    let heights = heights_of(&g);
    assert_eq!(heights, vec![1.0]);
}

#[test]
fn test_linear_chain() {
    // a -> b -> c
    let mut g = DiGraph::new();
    let a = g.add_node("a");
    let b = g.add_node("b");
    let c = g.add_node("c");
    g.add_edge(a, b);
    g.add_edge(b, c);

    let heights = heights_of(&g);
    assert_eq!(heights[a], 1.0); // Root
    assert_eq!(heights[b], 2.0); // Depth 2
    assert_eq!(heights[c], 3.0); // Depth 3
}

#[test]
fn test_diamond() {
    //     a (height 1)
    //    / \
    //   b   c  (both height 2)
    //    \ /
    //     d (height 3)
    let mut g = DiGraph::new();
    let a = g.add_node("a");
    let b = g.add_node("b");
    let c = g.add_node("c");
    let d = g.add_node("d");
    g.add_edge(a, b);
    g.add_edge(a, c);
    g.add_edge(b, d);
    g.add_edge(c, d);

    let heights = heights_of(&g);
    assert_eq!(heights[a], 1.0);
    assert_eq!(heights[b], 2.0);
    assert_eq!(heights[c], 2.0);
    assert_eq!(heights[d], 3.0);
}

#[test]
fn test_parallel_chains() {
    // a -> b -> c (chain of 3)
    // d -> e      (chain of 2)
    let mut g = DiGraph::new();
    let a = g.add_node("a");
    let b = g.add_node("b");
    let c = g.add_node("c");
    let d = g.add_node("d");
    let e = g.add_node("e");
    g.add_edge(a, b);
    g.add_edge(b, c);
    g.add_edge(d, e);

    let heights = heights_of(&g);
    assert_eq!(heights[a], 1.0);
    assert_eq!(heights[b], 2.0);
    assert_eq!(heights[c], 3.0); // Max
    assert_eq!(heights[d], 1.0);
    assert_eq!(heights[e], 2.0);

    assert_eq!(critical_path_length(&g) as f64, 3.0);
}

#[test]
fn test_cyclic_graph() {
    // a -> b -> c -> a (cycle)
    let mut g = DiGraph::new();
    let a = g.add_node("a");
    let b = g.add_node("b");
    let c = g.add_node("c");
    g.add_edge(a, b);
    g.add_edge(b, c);
    g.add_edge(c, a);

    let heights = heights_of(&g);
    // Should return zeros for cyclic graphs
    assert_eq!(heights, vec![0.0, 0.0, 0.0]);
}

#[test]
fn test_critical_path_nodes() {
    // a -> b -> c
    let mut g = DiGraph::new();
    let a = g.add_node("a");
    let b = g.add_node("b");
    let c = g.add_node("c");
    g.add_edge(a, b);
    g.add_edge(b, c);

    let critical = critical_path_nodes(&g);
    // Only c has maximum height (3)
    assert_eq!(critical, vec![c]);
}

#[test]
fn test_multiple_critical_path_nodes() {
    // a -> b
    // c -> d
    // Both chains have length 2
    let mut g = DiGraph::new();
    let a = g.add_node("a");
    let b = g.add_node("b");
    let c = g.add_node("c");
    let d = g.add_node("d");
    g.add_edge(a, b);
    g.add_edge(c, d);

    let critical = critical_path_nodes(&g);
    // Both b and d have maximum height (2)
    assert_eq!(critical.len(), 2);
    assert!(critical.contains(&b));
    assert!(critical.contains(&d));
}

#[test]
fn test_wide_graph() {
    // a points to b, c, d, e (all at depth 2)
    let mut g = DiGraph::new();
    let a = g.add_node("a");
    let b = g.add_node("b");
    let c = g.add_node("c");
    let d = g.add_node("d");
    let e = g.add_node("e");
    g.add_edge(a, b);
    g.add_edge(a, c);
    g.add_edge(a, d);
    g.add_edge(a, e);

    let heights = heights_of(&g);
    assert_eq!(heights[a], 1.0);
    assert_eq!(heights[b], 2.0);
    assert_eq!(heights[c], 2.0);
    assert_eq!(heights[d], 2.0);
    assert_eq!(heights[e], 2.0);
}
