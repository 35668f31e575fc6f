use scd_topology_checker::model::{
    AccessPoint, DirectedGraph, GraphNode, NodeType, SCDModel, ServiceType, SubNetwork, VirtualTerminal, IED,
};
use scd_topology_checker::{GraphBuilder, TopologyAnalyzer};

fn gnode(ied: &str, ap: &str) -> GraphNode {
    GraphNode { index: 0, ied_name: ied.to_string(), ap_name: ap.to_string(), node_type: NodeType::IED }
}

fn vt(ied: &str, ap: &str, cb: &str, service_type: ServiceType) -> VirtualTerminal {
    VirtualTerminal {
        ied_name: ied.to_string(),
        ap_name: ap.to_string(),
        ld_inst: "LD0".to_string(),
        cb_name: cb.to_string(),
        service_type,
        mac_address: None,
        app_id: None,
        vlan_id: None,
        vlan_priority: None,
    }
}

fn ap(ied: &str, name: &str) -> AccessPoint {
    AccessPoint {
        name: name.to_string(),
        ied_name: ied.to_string(),
        goose_pubs: Vec::new(),
        sv_pubs: Vec::new(),
        goose_subs: Vec::new(),
        sv_subs: Vec::new(),
    }
}

fn ied(name: &str, aps: Vec<AccessPoint>) -> IED {
    IED { name: name.to_string(), ied_type: None, manufacturer: None, access_points: aps }
}

fn empty_model() -> SCDModel {
    SCDModel {
        ieds: Vec::new(),
        sub_networks: Vec::new(),
        goose_connections: Vec::new(),
        sv_connections: Vec::new(),
        header_info: None,
    }
}

/// PROT1/G1 publishes GOOSE gcb1; CB1/G1 subscribes to it; MU1/M1 publishes SV
/// smv1 that PROT1/G1 subscribes to.
fn sample_model() -> SCDModel {
    let mut prot = ap("PROT1", "G1");
    prot.goose_pubs.push(vt("PROT1", "G1", "gcb1", ServiceType::GOOSE));
    prot.sv_subs.push(vt("MU1", "M1", "smv1", ServiceType::SV));
    let mut cb = ap("CB1", "G1");
    cb.goose_subs.push(vt("PROT1", "G1", "gcb1", ServiceType::GOOSE));
    let mut mu = ap("MU1", "M1");
    mu.sv_pubs.push(vt("MU1", "M1", "smv1", ServiceType::SV));
    let mut model = empty_model();
    model.ieds.push(ied("PROT1", vec![prot]));
    model.ieds.push(ied("CB1", vec![cb]));
    model.ieds.push(ied("MU1", vec![mu]));
    model.sub_networks.push(SubNetwork {
        name: "StationBus".to_string(),
        type_attr: None,
        access_points: vec![("PROT1".to_string(), "G1".to_string()), ("CB1".to_string(), "G1".to_string())],
    });
    model.sub_networks.push(SubNetwork {
        name: "ProcessBus".to_string(),
        type_attr: None,
        access_points: vec![("PROT1".to_string(), "G1".to_string()), ("MU1".to_string(), "M1".to_string())],
    });
    model
}

#[test]
fn add_node_returns_the_existing_index_for_a_known_pair() {
    let mut g = DirectedGraph::new();
    assert_eq!(g.add_node(gnode("A", "P")), 0);
    assert_eq!(g.add_node(gnode("B", "P")), 1);
    assert_eq!(g.add_node(gnode("A", "P")), 0);
    assert_eq!(g.node_count(), 2);
    assert_eq!(g.nodes[1].index, 0);
    assert_eq!(g.nodes[1].ied_name, "B");
}

#[test]
fn add_edge_ignores_repeats_and_unknown_nodes() {
    let mut g = DirectedGraph::new();
    g.add_node(gnode("A", "P"));
    g.add_node(gnode("B", "P"));
    g.add_edge(0, 1);
    g.add_edge(0, 1);
    g.add_edge(1, 7);
    g.add_edge(9, 0);
    assert_eq!(g.edge_count(), 1);
    assert_eq!(g.out_degree(0), 1);
    assert_eq!(g.in_degree(1), 1);
    assert_eq!(g.in_degree(0), 0);
    assert_eq!(g.out_degree(5), 0);
    assert_eq!(g.in_degree(5), 0);
    assert_eq!(g.reverse_adjacency[1], vec![0]);
}

#[test]
fn signal_graph_links_publishers_to_subscribers() {
    let model = sample_model();
    let g = GraphBuilder::build_from_scd(&model);
    assert_eq!(g.node_count(), 3);
    let names: Vec<(String, String)> = g.nodes.iter().map(|n| (n.ied_name.clone(), n.ap_name.clone())).collect();
    assert_eq!(names, vec![
        ("PROT1".to_string(), "G1".to_string()),
        ("CB1".to_string(), "G1".to_string()),
        ("MU1".to_string(), "M1".to_string()),
    ]);
    assert_eq!(g.nodes[0].node_type, NodeType::IED);
    assert_eq!(g.nodes[1].node_type, NodeType::Subscriber);
    assert_eq!(g.nodes[2].node_type, NodeType::Publisher);
    assert_eq!(g.adjacency[0], vec![1]);
    assert_eq!(g.adjacency[2], vec![0]);
    assert!(g.adjacency[1].is_empty());
    assert_eq!(g.edge_count(), 2);
    for (i, n) in g.nodes.iter().enumerate() {
        assert_eq!(n.index, i);
    }
}

#[test]
fn subscription_to_unknown_publisher_adds_no_edge() {
    let mut model = sample_model();
    model.ieds[1].access_points[0].goose_subs.push(vt("GHOST", "X", "g", ServiceType::GOOSE));
    let g = GraphBuilder::build_from_scd(&model);
    assert_eq!(g.node_count(), 3);
    assert_eq!(g.edge_count(), 2);
}

#[test]
fn layered_graph_has_switches_and_both_way_links() {
    let model = sample_model();
    let g = GraphBuilder::build_multilayer_graph(&model);
    assert_eq!(g.node_count(), 5);
    assert_eq!(g.nodes[0].ied_name, "StationBus");
    assert_eq!(g.nodes[0].ap_name, "SWITCH");
    assert_eq!(g.nodes[0].node_type, NodeType::Switch);
    assert_eq!(g.nodes[1].ied_name, "ProcessBus");
    assert_eq!(g.nodes[2].ied_name, "PROT1");
    assert_eq!(g.nodes[2].node_type, NodeType::Publisher);
    assert_eq!(g.nodes[3].node_type, NodeType::Subscriber);
    assert_eq!(g.nodes[4].node_type, NodeType::Publisher);
    assert_eq!(g.adjacency[2], vec![0, 1]);
    assert_eq!(g.adjacency[0], vec![2, 3]);
    assert_eq!(g.adjacency[1], vec![2, 4]);
    assert_eq!(g.adjacency[3], vec![0]);
    assert_eq!(g.adjacency[4], vec![1]);
    assert_eq!(g.edge_count(), 8);
}

#[test]
fn statistics_count_the_model_and_the_graph() {
    let model = sample_model();
    let g = GraphBuilder::build_from_scd(&model);
    let s = TopologyAnalyzer::analyze(&model, &g);
    assert_eq!(s.total_ieds, 3);
    assert_eq!(s.total_access_points, 3);
    assert_eq!(s.total_goose_pubs, 1);
    assert_eq!(s.total_goose_subs, 1);
    assert_eq!(s.total_sv_pubs, 1);
    assert_eq!(s.total_sv_subs, 1);
    assert_eq!(s.total_goose_connections, 0);
    assert_eq!(s.graph_nodes, 3);
    assert_eq!(s.graph_edges, 2);
    assert_eq!(s.scc_count, 3);
    assert_eq!(s.largest_scc_size, 1);
    assert_eq!(s.isolated_nodes, 0);
    assert_eq!(s.total_fan_out, 2);
    assert_eq!(s.max_fan_out, 1);
    assert_eq!(s.total_fan_in, 2);
    assert_eq!(s.max_fan_in, 1);
}

#[test]
fn statistics_of_an_isolated_node() {
    let mut g = DirectedGraph::new();
    g.add_node(gnode("A", "P"));
    g.add_node(gnode("B", "P"));
    g.add_node(gnode("C", "P"));
    g.add_edge(0, 1);
    g.add_edge(1, 0);
    let s = TopologyAnalyzer::analyze(&empty_model(), &g);
    assert_eq!(s.isolated_nodes, 1);
    assert_eq!(s.scc_count, 2);
    assert_eq!(s.largest_scc_size, 2);
    assert_eq!(s.total_fan_out, 2);
    assert_eq!(s.max_fan_in, 1);
}

#[test]
fn graphviz_lines_describe_nodes_then_edges() {
    let mut g = DirectedGraph::new();
    g.add_node(GraphNode { index: 0, ied_name: "P1".to_string(), ap_name: "G1".to_string(), node_type: NodeType::Publisher });
    g.add_node(GraphNode { index: 0, ied_name: "S1".to_string(), ap_name: "G1".to_string(), node_type: NodeType::Subscriber });
    g.add_edge(0, 1);
    let lines = TopologyAnalyzer::graphviz_lines(&g);
    assert_eq!(
        lines,
        vec![
            "digraph SCDTopology {".to_string(),
            "  rankdir=LR;".to_string(),
            "  node [shape=box, style=filled, color=lightblue];".to_string(),
            "".to_string(),
            "  \"P1_G1\" [label=\"P1\\n(G1)\", fillcolor=lightgreen];".to_string(),
            "  \"S1_G1\" [label=\"S1\\n(G1)\", fillcolor=lightcoral];".to_string(),
            "  \"P1_G1\" -> \"S1_G1\";".to_string(),
            "}".to_string(),
        ]
    );
}

#[test]
fn total_fan_in_equals_total_fan_out() {
    let mut g = DirectedGraph::new();
    for name in ["A", "B", "C", "D"] {
        g.add_node(gnode(name, "P"));
    }
    g.add_edge(0, 1);
    g.add_edge(0, 2);
    g.add_edge(2, 1);
    g.add_edge(3, 0);
    g.add_edge(1, 3);
    let s = TopologyAnalyzer::analyze(&empty_model(), &g);
    assert_eq!(s.graph_edges, 5);
    assert_eq!(s.total_fan_out, 5);
    assert_eq!(s.total_fan_in, 5);
    assert_eq!(s.max_fan_out, 2);
    assert_eq!(s.max_fan_in, 2);
}

#[test]
fn neighbour_lists_follow_the_order_of_first_links() {
    // S subscribes by SV to P1 and by GOOSE to P2 and P1: GOOSE links come
    // first, so S's publishers are listed P2, P1.
    let mut p1 = ap("P1", "A");
    p1.goose_pubs.push(vt("P1", "A", "g1", ServiceType::GOOSE));
    p1.sv_pubs.push(vt("P1", "A", "s1", ServiceType::SV));
    let mut p2 = ap("P2", "A");
    p2.goose_pubs.push(vt("P2", "A", "g2", ServiceType::GOOSE));
    let mut s = ap("S", "A");
    s.sv_subs.push(vt("P1", "A", "s1", ServiceType::SV));
    s.goose_subs.push(vt("P2", "A", "g2", ServiceType::GOOSE));
    s.goose_subs.push(vt("P1", "A", "g1", ServiceType::GOOSE));
    let mut t = ap("T", "A");
    t.goose_subs.push(vt("P1", "A", "g1", ServiceType::GOOSE));
    let mut model = empty_model();
    model.ieds.push(ied("P1", vec![p1]));
    model.ieds.push(ied("P2", vec![p2]));
    model.ieds.push(ied("T", vec![t]));
    model.ieds.push(ied("S", vec![s]));
    let g = GraphBuilder::build_from_scd(&model);
    assert_eq!(g.reverse_adjacency[3], vec![1, 0]);
    assert_eq!(g.adjacency[0], vec![2, 3]);
    assert_eq!(g.adjacency[1], vec![3]);
    assert_eq!(g.edge_count(), 3);
}
