use scd_topology_checker::model::{DelayProfile, DirectedGraph, GraphNode, IEDRole, NodeType, ViolationSeverity};
use scd_topology_checker::TimingAnalyzer;

fn gnode(ied: &str, ap: &str, node_type: NodeType) -> GraphNode {
    GraphNode { index: 0, ied_name: ied.to_string(), ap_name: ap.to_string(), node_type }
}

/// MU1 -> PROT1 -> CB1.
fn relay_chain() -> DirectedGraph {
    let mut g = DirectedGraph::new();
    g.add_node(gnode("PROT1", "G1", NodeType::IED));
    g.add_node(gnode("CB1", "G1", NodeType::Subscriber));
    g.add_node(gnode("MU1", "M1", NodeType::Publisher));
    g.add_edge(2, 0);
    g.add_edge(0, 1);
    g
}

#[test]
fn roles_follow_name_keywords() {
    assert_eq!(TimingAnalyzer::classify_ied_role("PROT1", NodeType::IED), IEDRole::ProtectionRelay);
    assert_eq!(TimingAnalyzer::classify_ied_role("line_prot", NodeType::Publisher), IEDRole::ProtectionRelay);
    assert_eq!(TimingAnalyzer::classify_ied_role("主变保护", NodeType::IED), IEDRole::ProtectionRelay);
    assert_eq!(TimingAnalyzer::classify_ied_role("MU1", NodeType::IED), IEDRole::MergingUnit);
    assert_eq!(TimingAnalyzer::classify_ied_role("BCU_2", NodeType::IED), IEDRole::BayControlUnit);
    assert_eq!(TimingAnalyzer::classify_ied_role("bay7", NodeType::IED), IEDRole::BayControlUnit);
    assert_eq!(TimingAnalyzer::classify_ied_role("CB1", NodeType::IED), IEDRole::CircuitBreaker);
    assert_eq!(TimingAnalyzer::classify_ied_role("trip_unit", NodeType::IED), IEDRole::CircuitBreaker);
    assert_eq!(TimingAnalyzer::classify_ied_role("Monitor", NodeType::IED), IEDRole::MonitoringDevice);
    assert_eq!(TimingAnalyzer::classify_ied_role("xyz", NodeType::IED), IEDRole::Unknown);
    assert_eq!(TimingAnalyzer::classify_ied_role("PROT1", NodeType::Switch), IEDRole::Switch);
}

#[test]
fn earlier_keyword_groups_win() {
    assert_eq!(TimingAnalyzer::classify_ied_role("PROT_CB", NodeType::IED), IEDRole::ProtectionRelay);
    assert_eq!(TimingAnalyzer::classify_ied_role("MU_CB", NodeType::IED), IEDRole::MergingUnit);
}

#[test]
fn monitoring_profile_values() {
    let p = TimingAnalyzer::get_delay_profile(&IEDRole::MonitoringDevice);
    assert_eq!(p.internal_processing_us, 180);
    assert_eq!(p.bus_forwarding_us, 45);
    assert_eq!(p.switch_backplane_us, 100);
    assert_eq!(p.network_propagation_us, 50);
    assert_eq!(p.total_us(), 375);
}

#[test]
fn profiles_of_each_role() {
    assert_eq!(TimingAnalyzer::get_delay_profile(&IEDRole::ProtectionRelay), DelayProfile::protection_device());
    assert_eq!(TimingAnalyzer::get_delay_profile(&IEDRole::CircuitBreaker).total_us(), 2200);
    assert_eq!(TimingAnalyzer::get_delay_profile(&IEDRole::Unknown), DelayProfile::default());
    assert_eq!(DelayProfile::protection_device().total_us(), 1250);
    assert_eq!(DelayProfile::merging_unit().total_us(), 450);
    assert_eq!(DelayProfile::switch_node().total_us(), 40);
}

#[test]
fn chain_within_threshold() {
    let g = relay_chain();
    let r = TimingAnalyzer::analyze(&g, 8);
    assert_eq!(r.threshold_ms, 8);
    assert!(!r.has_cycles);
    assert_eq!(r.topological_order, vec![2, 0, 1]);
    assert_eq!(r.protection_triggers, vec![0]);
    assert_eq!(r.breaker_terminals, vec![1]);
    assert_eq!(r.node_arrival_times, vec![450, 1700, 0]);
    assert_eq!(r.all_paths.len(), 1);
    let p = &r.all_paths[0];
    assert_eq!(p.nodes, vec!["PROT1/G1".to_string(), "CB1/G1".to_string()]);
    assert_eq!(p.total_delay_us, 3450);
    assert_eq!(p.per_node_delays.len(), 2);
    assert_eq!(p.per_node_delays[0].0, "PROT1/G1");
    assert_eq!(p.per_node_delays[0].2, 1250);
    assert_eq!(p.per_node_delays[1].2, 2200);
    assert!(!p.is_critical);
    assert!(r.violations.is_empty());
    assert!(r.critical_paths.is_empty());
}

#[test]
fn chain_over_threshold_is_a_violation() {
    let g = relay_chain();
    let r = TimingAnalyzer::analyze(&g, 3);
    assert_eq!(r.violations.len(), 1);
    assert_eq!(r.critical_paths.len(), 1);
    assert_eq!(r.violations[0].excess_us, 450);
    assert_eq!(r.violations[0].severity, ViolationSeverity::Medium);
    assert_eq!(r.violations[0].path.total_delay_us, 3450);
    assert_eq!(r.critical_paths[0].nodes, r.all_paths[0].nodes);
}

#[test]
fn excess_sets_the_severity() {
    let g = relay_chain();
    let r = TimingAnalyzer::analyze(&g, 1);
    assert_eq!(r.violations[0].excess_us, 2450);
    assert_eq!(r.violations[0].severity, ViolationSeverity::High);
    let r0 = TimingAnalyzer::analyze(&g, 0);
    assert_eq!(r0.violations[0].excess_us, 3450);
    assert_eq!(r0.violations[0].severity, ViolationSeverity::High);
}

#[test]
fn long_path_is_critical() {
    let mut g = DirectedGraph::new();
    g.add_node(gnode("PROT1", "G1", NodeType::IED));
    for i in 0..6 {
        g.add_node(gnode(&format!("X{}", i), "A", NodeType::IED));
    }
    g.add_node(gnode("CB9", "G1", NodeType::IED));
    for i in 0..7 {
        g.add_edge(i, i + 1);
    }
    let r = TimingAnalyzer::analyze(&g, 0);
    // 1250 + 6 * 400 + 2200
    assert_eq!(r.all_paths[0].total_delay_us, 5850);
    assert_eq!(r.violations[0].severity, ViolationSeverity::Critical);
}

#[test]
fn every_simple_route_is_found_longest_first() {
    // PROT -> A -> CB and PROT -> CB; A is a merging unit.
    let mut g = DirectedGraph::new();
    g.add_node(gnode("PROT1", "G1", NodeType::IED));
    g.add_node(gnode("MU7", "M", NodeType::IED));
    g.add_node(gnode("CB1", "G1", NodeType::IED));
    g.add_edge(0, 2);
    g.add_edge(0, 1);
    g.add_edge(1, 2);
    let r = TimingAnalyzer::analyze(&g, 8);
    assert_eq!(r.all_paths.len(), 2);
    assert_eq!(r.all_paths[0].nodes, vec!["PROT1/G1", "MU7/M", "CB1/G1"]);
    assert_eq!(r.all_paths[0].total_delay_us, 1250 + 450 + 2200);
    assert_eq!(r.all_paths[1].nodes, vec!["PROT1/G1", "CB1/G1"]);
    assert_eq!(r.all_paths[1].total_delay_us, 3450);
}

#[test]
fn cycle_gives_a_fallback_order_of_all_nodes() {
    let mut g = relay_chain();
    g.add_edge(1, 0);
    let r = TimingAnalyzer::analyze(&g, 8);
    assert!(r.has_cycles);
    let mut order = r.topological_order.clone();
    order.sort();
    assert_eq!(order, vec![0, 1, 2]);
    assert_eq!(r.topological_order, vec![0, 1, 2]);
}

#[test]
fn no_relay_no_paths() {
    let mut g = DirectedGraph::new();
    g.add_node(gnode("A", "P", NodeType::IED));
    g.add_node(gnode("CB1", "P", NodeType::IED));
    g.add_edge(0, 1);
    let r = TimingAnalyzer::analyze(&g, 8);
    assert!(r.protection_triggers.is_empty());
    assert_eq!(r.breaker_terminals, vec![1]);
    assert!(r.all_paths.is_empty());
}

#[test]
fn fallback_order_lists_the_nodes_fed_by_a_cycle_first() {
    // 3 <-> 1 -> 4, and 0, 2 untouched by the cycle
    let mut g = DirectedGraph::new();
    for name in ["A", "B", "C", "D", "E"] {
        g.add_node(gnode(name, "P", NodeType::IED));
    }
    g.add_edge(3, 1);
    g.add_edge(1, 3);
    g.add_edge(1, 4);
    g.add_edge(0, 2);
    let r = TimingAnalyzer::analyze(&g, 8);
    assert!(r.has_cycles);
    let mut first: Vec<usize> = r.topological_order[..3].to_vec();
    first.sort();
    assert_eq!(first, vec![1, 3, 4]);
    assert_eq!(r.topological_order[3..].to_vec(), vec![0, 2]);
}

#[test]
fn delay_summary_of_paths() {
    assert_eq!(TimingAnalyzer::delay_summary(&Vec::new()), None);
    let mut g = relay_chain();
    g.add_node(gnode("PROT2", "G2", NodeType::IED));
    g.add_edge(3, 1);
    let r = TimingAnalyzer::analyze(&g, 8);
    assert_eq!(r.all_paths.len(), 2);
    let totals: Vec<u64> = r.all_paths.iter().map(|p| p.total_delay_us).collect();
    assert_eq!(totals, vec![1250 + 2200, 1250 + 2200]);
    assert_eq!(TimingAnalyzer::delay_summary(&r.all_paths), Some((3450, 3450, 3450)));
}

#[test]
fn routes_of_equal_delay_come_in_search_order() {
    // PROT1 -> X1 -> CB1 and PROT1 -> Y1 -> CB1; the search tries Y1 first.
    let mut g = DirectedGraph::new();
    g.add_node(gnode("PROT1", "G1", NodeType::IED));
    g.add_node(gnode("X1", "P", NodeType::IED));
    g.add_node(gnode("Y1", "P", NodeType::IED));
    g.add_node(gnode("CB1", "G1", NodeType::IED));
    g.add_edge(0, 1);
    g.add_edge(0, 2);
    g.add_edge(1, 3);
    g.add_edge(2, 3);
    let r = TimingAnalyzer::analyze(&g, 8);
    assert_eq!(r.all_paths.len(), 2);
    assert_eq!(r.all_paths[0].nodes, vec!["PROT1/G1", "Y1/P", "CB1/G1"]);
    assert_eq!(r.all_paths[1].nodes, vec!["PROT1/G1", "X1/P", "CB1/G1"]);
    assert_eq!(r.all_paths[0].total_delay_us, 1250 + 400 + 2200);
    assert_eq!(r.all_paths[1].total_delay_us, 1250 + 400 + 2200);
}

#[test]
fn fallback_walks_try_the_last_out_neighbour_first() {
    // 3 <-> 1 -> 4, and 0 -> 2 untouched by the cycle
    let mut g = DirectedGraph::new();
    for name in ["A", "B", "C", "D", "E"] {
        g.add_node(gnode(name, "P", NodeType::IED));
    }
    g.add_edge(3, 1);
    g.add_edge(1, 3);
    g.add_edge(1, 4);
    g.add_edge(0, 2);
    let r = TimingAnalyzer::analyze(&g, 8);
    assert!(r.has_cycles);
    assert_eq!(r.topological_order, vec![1, 4, 3, 0, 2]);
}

#[test]
fn acyclic_graph_gets_the_order_kahn_gives() {
    // 3 -> 1, 3 -> 0, 0 -> 2, 1 -> 2
    let mut g = DirectedGraph::new();
    g.add_node(gnode("MU1", "X", NodeType::IED));
    g.add_node(gnode("BCU1", "X", NodeType::IED));
    g.add_node(gnode("C", "X", NodeType::IED));
    g.add_node(gnode("D", "X", NodeType::IED));
    g.add_edge(3, 1);
    g.add_edge(3, 0);
    g.add_edge(0, 2);
    g.add_edge(1, 2);
    let r = TimingAnalyzer::analyze(&g, 8);
    assert!(!r.has_cycles);
    assert_eq!(r.topological_order, vec![3, 1, 0, 2]);
    assert_eq!(r.topological_order, scd_topology_checker::KahnTopoSort::sort(&g).unwrap());
    // Each node is reached when the latest of its predecessors sends.
    let bay = TimingAnalyzer::get_delay_profile(&IEDRole::BayControlUnit).total_us();
    let dflt = DelayProfile::default().total_us();
    assert_eq!(r.node_arrival_times, vec![dflt, dflt, dflt + bay.max(450), 0]);
}
