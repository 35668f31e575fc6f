use scd_topology_checker::model::{
    AccessPoint, DirectedGraph, GraphNode, NodeType, SCDModel, ServiceType, SubNetwork, ViolationSeverity,
    ViolationType, VirtualTerminal, IED,
};
use scd_topology_checker::{GraphBuilder, IsolationValidator};

fn gnode(ied: &str, ap: &str) -> GraphNode {
    GraphNode { index: 0, ied_name: ied.to_string(), ap_name: ap.to_string(), node_type: NodeType::IED }
}

fn vt(ied: &str, ap: &str, cb: &str, vlan: Option<&str>) -> VirtualTerminal {
    VirtualTerminal {
        ied_name: ied.to_string(),
        ap_name: ap.to_string(),
        ld_inst: "LD0".to_string(),
        cb_name: cb.to_string(),
        service_type: ServiceType::GOOSE,
        mac_address: None,
        app_id: None,
        vlan_id: vlan.map(|v| v.to_string()),
        vlan_priority: None,
    }
}

fn ap(ied: &str, name: &str) -> AccessPoint {
    AccessPoint {
        name: name.to_string(),
        ied_name: ied.to_string(),
        goose_pubs: Vec::new(),
        sv_pubs: Vec::new(),
        goose_subs: Vec::new(),
        sv_subs: Vec::new(),
    }
}

fn model_with(ieds: Vec<IED>, subnets: Vec<SubNetwork>) -> SCDModel {
    SCDModel { ieds, sub_networks: subnets, goose_connections: Vec::new(), sv_connections: Vec::new(), header_info: None }
}

fn ied(name: &str, aps: Vec<AccessPoint>) -> IED {
    IED { name: name.to_string(), ied_type: None, manufacturer: None, access_points: aps }
}

#[test]
fn new_validator_has_nothing() {
    let v = IsolationValidator::new();
    assert!(v.violations().is_empty());
}

#[test]
fn loop_is_critical() {
    let mut g = DirectedGraph::new();
    g.add_node(gnode("A", "P"));
    g.add_node(gnode("B", "P"));
    g.add_edge(0, 1);
    g.add_edge(1, 0);
    let model = model_with(Vec::new(), Vec::new());
    let mut v = IsolationValidator::new();
    let found = v.validate_all(&model, &g);
    assert_eq!(found.len(), 1);
    assert_eq!(found[0].violation_type, ViolationType::LoopDetected);
    assert_eq!(found[0].severity, ViolationSeverity::Critical);
    assert_eq!(found[0].description, "检测到信号环路，包含 2 个节点，违反继电保护单向传输原则");
    let mut nodes = found[0].involved_nodes.clone();
    nodes.sort();
    assert_eq!(nodes, vec!["A/P".to_string(), "B/P".to_string()]);
}

#[test]
fn edge_across_zones_is_reported() {
    let mut prot = ap("PROT1", "G1");
    prot.goose_pubs.push(vt("PROT1", "G1", "gcb1", None));
    let mut cb = ap("CB1", "G1");
    cb.goose_subs.push(vt("PROT1", "G1", "gcb1", None));
    let model = model_with(
        vec![ied("PROT1", vec![prot]), ied("CB1", vec![cb])],
        vec![
            SubNetwork { name: "Z1".to_string(), type_attr: None, access_points: vec![("PROT1".to_string(), "G1".to_string())] },
            SubNetwork { name: "Z2".to_string(), type_attr: None, access_points: vec![("CB1".to_string(), "G1".to_string())] },
        ],
    );
    let g = GraphBuilder::build_from_scd(&model);
    let mut v = IsolationValidator::new();
    let found = v.validate_all(&model, &g);
    assert_eq!(found.len(), 1);
    assert_eq!(found[0].violation_type, ViolationType::CrossZoneConnection);
    assert_eq!(found[0].severity, ViolationSeverity::High);
    assert_eq!(found[0].description, "跨安全分区连接: PROT1/G1 -> CB1/G1 (Z1 -> Z2)");
    assert_eq!(found[0].involved_nodes, vec!["PROT1/G1".to_string(), "CB1/G1".to_string()]);
}

#[test]
fn later_subnetwork_decides_the_zone() {
    let mut prot = ap("PROT1", "G1");
    prot.goose_pubs.push(vt("PROT1", "G1", "gcb1", None));
    let mut cb = ap("CB1", "G1");
    cb.goose_subs.push(vt("PROT1", "G1", "gcb1", None));
    let model = model_with(
        vec![ied("PROT1", vec![prot]), ied("CB1", vec![cb])],
        vec![
            SubNetwork { name: "Z1".to_string(), type_attr: None, access_points: vec![("PROT1".to_string(), "G1".to_string())] },
            SubNetwork {
                name: "Z2".to_string(),
                type_attr: None,
                access_points: vec![("CB1".to_string(), "G1".to_string()), ("PROT1".to_string(), "G1".to_string())],
            },
        ],
    );
    let g = GraphBuilder::build_from_scd(&model);
    let mut v = IsolationValidator::new();
    assert!(v.validate_all(&model, &g).is_empty());
}

#[test]
fn vlan_mismatch_and_unknown_publication() {
    let mut prot = ap("PROT1", "G1");
    prot.goose_pubs.push(vt("PROT1", "G1", "gcb1", Some("100")));
    let mut cb = ap("CB1", "G1");
    cb.goose_subs.push(vt("PROT1", "G1", "gcb1", Some("200")));
    cb.goose_subs.push(vt("GHOST", "X", "g", None));
    cb.goose_subs.push(vt("", "X", "g", None));
    cb.sv_subs.push(vt("MU9", "M", "smv", None));
    let model = model_with(vec![ied("PROT1", vec![prot]), ied("CB1", vec![cb])], Vec::new());
    let g = GraphBuilder::build_from_scd(&model);
    let mut v = IsolationValidator::new();
    let found = v.validate_all(&model, &g);
    assert_eq!(found.len(), 3);
    assert_eq!(found[0].violation_type, ViolationType::VlanMismatch);
    assert_eq!(found[0].severity, ViolationSeverity::Medium);
    assert_eq!(found[0].description, "GOOSE 订阅 VLAN 不匹配: CB1/G1.gcb1 订阅 VLAN=200, 发布 VLAN=100");
    assert_eq!(found[0].involved_nodes, vec!["PROT1/G1".to_string(), "CB1/G1".to_string()]);
    assert_eq!(found[1].violation_type, ViolationType::UnauthorizedSubscription);
    assert_eq!(found[1].description, "未授权 GOOSE 订阅: CB1/G1 订阅不存在的发布 GHOST/X.g");
    assert_eq!(found[1].involved_nodes, vec!["CB1/G1".to_string()]);
    assert_eq!(found[2].description, "未授权 SV 订阅: CB1/G1 订阅不存在的发布 MU9/M.smv");
    assert_eq!(found[2].severity, ViolationSeverity::High);
}

#[test]
fn protection_reaching_process_level() {
    let mut g = DirectedGraph::new();
    g.add_node(gnode("PROT1", "G1"));
    g.add_node(gnode("BUS", "X"));
    g.add_node(gnode("SV_MU", "M1"));
    g.add_node(gnode("SMV2", "M2"));
    g.add_edge(0, 1);
    g.add_edge(1, 2);
    let model = model_with(Vec::new(), Vec::new());
    let mut v = IsolationValidator::new();
    let found = v.validate_all(&model, &g);
    assert_eq!(found.len(), 1);
    assert_eq!(found[0].violation_type, ViolationType::CrossZoneConnection);
    assert_eq!(found[0].severity, ViolationSeverity::Medium);
    assert_eq!(found[0].description, "保护装置直连过程层设备: PROT1/G1 -> SV_MU/M1 可能存在安全风险");
    assert_eq!(found[0].involved_nodes, vec!["PROT1/G1".to_string(), "SV_MU/M1".to_string()]);
}

#[test]
fn protection_process_node_reaches_itself() {
    let mut g = DirectedGraph::new();
    g.add_node(gnode("prot_sv", "G1"));
    let model = model_with(Vec::new(), Vec::new());
    let mut v = IsolationValidator::new();
    let found = v.validate_all(&model, &g);
    assert_eq!(found.len(), 1);
    assert_eq!(found[0].description, "保护装置直连过程层设备: prot_sv/G1 -> prot_sv/G1 可能存在安全风险");
}

#[test]
fn violations_accumulate_over_runs() {
    let mut g = DirectedGraph::new();
    g.add_node(gnode("A", "P"));
    g.add_node(gnode("B", "P"));
    g.add_edge(0, 1);
    g.add_edge(1, 0);
    let model = model_with(Vec::new(), Vec::new());
    let mut v = IsolationValidator::new();
    v.validate_all(&model, &g);
    v.validate_all(&model, &g);
    assert_eq!(v.violations().len(), 2);
}

#[test]
fn severity_counts_follow_the_violations() {
    let mut g = DirectedGraph::new();
    g.add_node(gnode("A", "P"));
    g.add_node(gnode("B", "P"));
    g.add_edge(0, 1);
    g.add_edge(1, 0);
    let model = model_with(Vec::new(), Vec::new());
    let mut v = IsolationValidator::new();
    assert_eq!(v.severity_counts(), (0, 0, 0, 0));
    let n = v.validate_all(&model, &g).len();
    let (critical, high, medium, low) = v.severity_counts();
    assert_eq!(critical + high + medium + low, n);
    assert_eq!(critical, v.violations().iter().filter(|x| x.severity == ViolationSeverity::Critical).count());
    assert!(critical >= 1);
}

#[test]
fn built_graph_has_no_repeated_edges_to_report() {
    let mut g = DirectedGraph::new();
    g.add_node(gnode("A", "P"));
    g.add_node(gnode("B", "P"));
    g.add_edge(0, 1);
    g.add_edge(0, 1);
    let model = model_with(Vec::new(), Vec::new());
    let mut v = IsolationValidator::new();
    let found = v.validate_all(&model, &g);
    assert!(found.iter().all(|x| x.violation_type != ViolationType::RedundantPath));
}
