use scd_topology_checker::model::{DirectedGraph, GraphNode, NodeType};
use scd_topology_checker::{KahnTopoSort, KosarajuSCC, TarjanSCC};

fn node(i: usize, prefix: &str) -> GraphNode {
    GraphNode {
        index: i,
        ied_name: format!("{}-{:08}", prefix, i),
        ap_name: "AP1".to_string(),
        node_type: NodeType::IED,
    }
}

fn build_deep_chain_graph(size: usize) -> DirectedGraph {
    let mut graph = DirectedGraph::new();
    for i in 0..size {
        graph.add_node(node(i, "NODE"));
    }
    for i in 0..size - 1 {
        graph.add_edge(i, i + 1);
    }
    graph
}

fn build_single_large_cycle(size: usize) -> DirectedGraph {
    let mut graph = DirectedGraph::new();
    for i in 0..size {
        graph.add_node(node(i, "CYCLE"));
    }
    for i in 0..size - 1 {
        graph.add_edge(i, i + 1);
    }
    graph.add_edge(size - 1, 0);
    graph
}

fn build_many_small_cycles(cycle_count: usize, cycle_size: usize) -> DirectedGraph {
    let total = cycle_count * cycle_size;
    let mut graph = DirectedGraph::new();
    for i in 0..total {
        graph.add_node(node(i, "SC"));
    }
    for c in 0..cycle_count {
        let base = c * cycle_size;
        for i in 0..cycle_size - 1 {
            graph.add_edge(base + i, base + i + 1);
        }
        graph.add_edge(base + cycle_size - 1, base);
    }
    graph
}

#[test]
fn deep_chain_has_one_component_per_node() {
    let graph = build_deep_chain_graph(10_000);
    assert_eq!(graph.node_count(), 10_000);
    assert_eq!(graph.edge_count(), 9_999);
    let tarjan = TarjanSCC::compute(&graph);
    assert_eq!(tarjan.len(), 10_000);
    let kosaraju = KosarajuSCC::compute(&graph);
    assert_eq!(kosaraju.len(), 10_000);
    assert!(!TarjanSCC::has_cycle(&graph));
    assert_eq!(TarjanSCC::largest_scc_size(&graph), 1);
    assert_eq!(TarjanSCC::scc_count(&graph), 10_000);
}

#[test]
fn single_large_cycle_is_one_component() {
    let graph = build_single_large_cycle(10_000);
    assert_eq!(graph.edge_count(), 10_000);
    let tarjan = TarjanSCC::compute(&graph);
    assert_eq!(tarjan.len(), 1);
    assert_eq!(tarjan[0].len(), 10_000);
    assert_eq!(tarjan.iter().map(|s| s.len()).max().unwrap(), 10_000);
    let kosaraju = KosarajuSCC::compute(&graph);
    assert_eq!(kosaraju.len(), 1);
    assert_eq!(kosaraju.iter().map(|s| s.len()).max().unwrap(), 10_000);
    assert!(TarjanSCC::has_cycle(&graph));
    assert_eq!(TarjanSCC::largest_scc_size(&graph), 10_000);
}

#[test]
fn many_small_cycles_give_one_component_each() {
    let graph = build_many_small_cycles(1000, 10);
    assert_eq!(graph.node_count(), 10_000);
    let tarjan = TarjanSCC::compute(&graph);
    assert_eq!(tarjan.len(), 1000);
    assert!(tarjan.iter().all(|c| c.len() == 10));
    let kosaraju = KosarajuSCC::compute(&graph);
    assert_eq!(kosaraju.len(), 1000);
    assert_eq!(TarjanSCC::scc_count(&graph), 1000);
}

#[test]
fn very_deep_chain_does_not_overflow_the_stack() {
    let graph = build_deep_chain_graph(50_000);
    assert_eq!(TarjanSCC::compute(&graph).len(), 50_000);
    assert_eq!(KosarajuSCC::compute(&graph).len(), 50_000);
}

#[test]
fn components_partition_the_nodes() {
    let graph = build_many_small_cycles(5, 3);
    let mut seen: Vec<usize> = TarjanSCC::compute(&graph).into_iter().flatten().collect();
    seen.sort();
    assert_eq!(seen, (0..15).collect::<Vec<_>>());
    let mut seen_k: Vec<usize> = KosarajuSCC::compute(&graph).into_iter().flatten().collect();
    seen_k.sort();
    assert_eq!(seen_k, (0..15).collect::<Vec<_>>());
}

#[test]
fn empty_graph_has_no_components() {
    let graph = DirectedGraph::new();
    assert!(TarjanSCC::compute(&graph).is_empty());
    assert!(KosarajuSCC::compute(&graph).is_empty());
    assert_eq!(TarjanSCC::largest_scc_size(&graph), 0);
    assert_eq!(TarjanSCC::scc_count(&graph), 0);
    assert!(!TarjanSCC::has_cycle(&graph));
    assert_eq!(KahnTopoSort::sort(&graph), Ok(Vec::new()));
}

#[test]
fn chain_sorts_in_order() {
    let graph = build_deep_chain_graph(6);
    assert_eq!(KahnTopoSort::sort(&graph), Ok(vec![0, 1, 2, 3, 4, 5]));
    assert!(KahnTopoSort::has_topological_order(&graph));
}

#[test]
fn cycle_has_no_topological_order() {
    let mut graph = build_deep_chain_graph(5);
    graph.add_edge(3, 1);
    let result = KahnTopoSort::sort(&graph);
    assert_eq!(result, Err(vec![1, 2, 3, 4]));
    assert!(!KahnTopoSort::has_topological_order(&graph));
}

#[test]
fn self_loop_is_cyclic_for_sorting_but_not_a_loop_component() {
    let mut graph = build_deep_chain_graph(3);
    graph.add_edge(1, 1);
    assert_eq!(KahnTopoSort::sort(&graph), Err(vec![1, 2]));
    assert!(!TarjanSCC::has_cycle(&graph));
    assert_eq!(TarjanSCC::scc_count(&graph), 3);
}

#[test]
fn diamond_sorts_with_sources_first() {
    let mut graph = DirectedGraph::new();
    for i in 0..4 {
        graph.add_node(node(i, "D"));
    }
    graph.add_edge(0, 1);
    graph.add_edge(0, 2);
    graph.add_edge(1, 3);
    graph.add_edge(2, 3);
    assert_eq!(KahnTopoSort::sort(&graph), Ok(vec![0, 1, 2, 3]));
}

#[test]
fn kahn_frees_nodes_first_in_first_out() {
    let mut graph = DirectedGraph::new();
    for i in 0..6 {
        graph.add_node(node(i, "Q"));
    }
    graph.add_edge(0, 3);
    graph.add_edge(0, 2);
    graph.add_edge(4, 1);
    graph.add_edge(2, 5);
    assert_eq!(KahnTopoSort::sort(&graph), Ok(vec![0, 4, 3, 2, 1, 5]));
}

#[test]
fn kosaraju_component_starts_at_a_reached_root() {
    let graph = build_single_large_cycle(4);
    let comps = KosarajuSCC::compute(&graph);
    assert_eq!(comps.len(), 1);
    assert_eq!(comps[0].len(), 4);
}

/// 0 -> 1 -> 2 -> 0, 2 -> 3, 3 -> 4 -> 3, 5 alone, 5 -> 0.
fn mixed_graph() -> DirectedGraph {
    let mut graph = DirectedGraph::new();
    for i in 0..6 {
        graph.add_node(node(i, "MIX"));
    }
    graph.add_edge(0, 1);
    graph.add_edge(1, 2);
    graph.add_edge(2, 0);
    graph.add_edge(2, 3);
    graph.add_edge(3, 4);
    graph.add_edge(4, 3);
    graph.add_edge(5, 0);
    graph
}

fn sorted_parts(parts: Vec<Vec<usize>>) -> Vec<Vec<usize>> {
    let mut out: Vec<Vec<usize>> = parts
        .into_iter()
        .map(|mut p| {
            p.sort();
            p
        })
        .collect();
    out.sort();
    out
}

#[test]
fn both_finders_give_the_strongly_connected_components() {
    let graph = mixed_graph();
    let expected = vec![vec![0, 1, 2], vec![3, 4], vec![5]];
    assert_eq!(sorted_parts(TarjanSCC::compute(&graph)), expected);
    assert_eq!(sorted_parts(KosarajuSCC::compute(&graph)), expected);
}

#[test]
fn tarjan_lists_a_sink_component_before_its_sources() {
    let graph = mixed_graph();
    let sccs = TarjanSCC::compute(&graph);
    let pos = |v: usize| sccs.iter().position(|c| c.contains(&v)).unwrap();
    assert!(pos(3) < pos(0));
    assert!(pos(0) < pos(5));
}

#[test]
fn cycle_count_and_largest_component() {
    let graph = mixed_graph();
    assert!(TarjanSCC::has_cycle(&graph));
    assert_eq!(TarjanSCC::scc_count(&graph), 3);
    assert_eq!(TarjanSCC::largest_scc_size(&graph), 3);
    let chain = build_deep_chain_graph(5);
    assert!(!TarjanSCC::has_cycle(&chain));
    assert_eq!(TarjanSCC::scc_count(&chain), 5);
    assert_eq!(TarjanSCC::largest_scc_size(&chain), 1);
    let empty = DirectedGraph::new();
    assert!(!TarjanSCC::has_cycle(&empty));
    assert_eq!(TarjanSCC::largest_scc_size(&empty), 0);
}

#[test]
fn sortable_graph_has_only_single_node_components() {
    let mut graph = DirectedGraph::new();
    for i in 0..4 {
        graph.add_node(node(i, "DAG"));
    }
    graph.add_edge(0, 1);
    graph.add_edge(0, 2);
    graph.add_edge(1, 3);
    graph.add_edge(2, 3);
    assert!(KahnTopoSort::has_topological_order(&graph));
    let sccs = TarjanSCC::compute(&graph);
    assert_eq!(sccs.len(), 4);
    assert!(sccs.iter().all(|c| c.len() == 1));
    assert!(!TarjanSCC::has_cycle(&graph));
    assert_eq!(KosarajuSCC::compute(&graph).len(), TarjanSCC::scc_count(&graph));
}

#[test]
fn kosaraju_lists_a_source_component_before_its_sinks() {
    let graph = mixed_graph();
    let sccs = KosarajuSCC::compute(&graph);
    let pos = |v: usize| sccs.iter().position(|c| c.contains(&v)).unwrap();
    assert!(pos(5) < pos(0));
    assert!(pos(0) < pos(3));
}

#[test]
fn tarjan_follows_the_depth_first_search() {
    // 0 -> 2 -> 3, 0 -> 1 -> 0
    let mut graph = DirectedGraph::new();
    for i in 0..4 {
        graph.add_node(node(i, "T"));
    }
    graph.add_edge(0, 2);
    graph.add_edge(0, 1);
    graph.add_edge(1, 0);
    graph.add_edge(2, 3);
    assert_eq!(TarjanSCC::compute(&graph), vec![vec![3], vec![2], vec![1, 0]]);
}

#[test]
fn kosaraju_walks_reversed_edges_from_the_last_finished_node() {
    // 0 -> 1 -> 2 -> 0, 0 -> 3 -> 4 -> 3
    let mut graph = DirectedGraph::new();
    for i in 0..5 {
        graph.add_node(node(i, "K"));
    }
    graph.add_edge(0, 1);
    graph.add_edge(1, 2);
    graph.add_edge(2, 0);
    graph.add_edge(0, 3);
    graph.add_edge(3, 4);
    graph.add_edge(4, 3);
    assert_eq!(KosarajuSCC::compute(&graph), vec![vec![0, 2, 1], vec![3, 4]]);
}

#[test]
fn cycle_test_and_sortability_agree_without_self_loops() {
    let cyclic = build_single_large_cycle(5);
    assert!(TarjanSCC::has_cycle(&cyclic));
    assert!(!KahnTopoSort::has_topological_order(&cyclic));
    let chain = build_deep_chain_graph(5);
    assert!(!TarjanSCC::has_cycle(&chain));
    assert!(KahnTopoSort::has_topological_order(&chain));
}
