//! The data model of a substation configuration description and of the
//! directed communication graph built from it.

use vstd::prelude::*;

use crate::hashing::{pair_map_contents, pair_map_get, pair_map_insert, pair_map_new, PairMap};

verus! {

/// The kind of service a virtual terminal belongs to.
#[derive(Debug, Clone, Copy, PartialEq, Eq, Structural, Hash)]
pub enum ServiceType {
    GOOSE,
    SV,
    MMS,
}

/// A publishing or subscribing end of a GOOSE or SV control block.
#[derive(Debug)]
pub struct VirtualTerminal {
    pub ied_name: String,
    pub ap_name: String,
    pub ld_inst: String,
    pub cb_name: String,
    pub service_type: ServiceType,
    pub mac_address: Option<String>,
    pub app_id: Option<String>,
    pub vlan_id: Option<String>,
    pub vlan_priority: Option<String>,
}

/// An access point of an IED with the terminals it publishes and subscribes.
#[derive(Debug)]
pub struct AccessPoint {
    pub name: String,
    pub ied_name: String,
    pub goose_pubs: Vec<VirtualTerminal>,
    pub sv_pubs: Vec<VirtualTerminal>,
    pub goose_subs: Vec<VirtualTerminal>,
    pub sv_subs: Vec<VirtualTerminal>,
}

/// An intelligent electronic device.
#[derive(Debug)]
pub struct IED {
    pub name: String,
    pub ied_type: Option<String>,
    pub manufacturer: Option<String>,
    pub access_points: Vec<AccessPoint>,
}

/// A communication subnetwork with the (IED, access point) pairs connected to it.
#[derive(Debug)]
pub struct SubNetwork {
    pub name: String,
    pub type_attr: Option<String>,
    pub access_points: Vec<(String, String)>,
}

/// The header of a configuration description.
#[derive(Debug)]
pub struct HeaderInfo {
    pub id: Option<String>,
    pub version: Option<String>,
    pub name_history: Vec<String>,
}

/// Everything read from a configuration description.
#[derive(Debug)]
pub struct SCDModel {
    pub ieds: Vec<IED>,
    pub sub_networks: Vec<SubNetwork>,
    pub goose_connections: Vec<(VirtualTerminal, Vec<VirtualTerminal>)>,
    pub sv_connections: Vec<(VirtualTerminal, Vec<VirtualTerminal>)>,
    pub header_info: Option<HeaderInfo>,
}

/// Counts that describe a configuration and its graph.  The averages of fan
/// out and fan in are `total_fan_out / graph_nodes` and
/// `total_fan_in / graph_nodes`; callers that want them as fractions divide.
#[derive(Debug)]
pub struct TopologyStats {
    pub total_ieds: usize,
    pub total_access_points: usize,
    pub total_goose_pubs: usize,
    pub total_goose_subs: usize,
    pub total_sv_pubs: usize,
    pub total_sv_subs: usize,
    pub total_goose_connections: usize,
    pub total_sv_connections: usize,
    pub graph_nodes: usize,
    pub graph_edges: usize,
    pub scc_count: usize,
    pub largest_scc_size: usize,
    pub isolated_nodes: usize,
    pub total_fan_out: usize,
    pub max_fan_out: usize,
    pub total_fan_in: usize,
    pub max_fan_in: usize,
}

/// A breach of the isolation rules found by the validator.
#[derive(Debug)]
pub struct IsolationViolation {
    pub description: String,
    pub severity: ViolationSeverity,
    pub involved_nodes: Vec<String>,
    pub violation_type: ViolationType,
}

/// How serious a violation is.
#[derive(Debug, Clone, Copy, PartialEq, Eq, Structural)]
pub enum ViolationSeverity {
    Critical,
    High,
    Medium,
    Low,
}

/// Which rule a violation breaks.
#[derive(Debug, Clone, Copy, PartialEq, Eq, Structural)]
pub enum ViolationType {
    CrossZoneConnection,
    LoopDetected,
    UnauthorizedSubscription,
    RedundantPath,
    VlanMismatch,
}

/// A node of the communication graph: one access point of one IED, or a switch.
#[derive(Debug)]
pub struct GraphNode {
    pub index: usize,
    pub ied_name: String,
    pub ap_name: String,
    pub node_type: NodeType,
}

/// The role of a graph node.
#[derive(Debug, Clone, Copy, PartialEq, Eq, Structural, Hash)]
pub enum NodeType {
    Publisher,
    Subscriber,
    Switch,
    IED,
}

impl GraphNode {
    /// The pair of names that identifies a node.
    pub open spec fn key(self) -> (Seq<char>, Seq<char>) {
        (self.ied_name@, self.ap_name@)
    }
}

/// A directed graph over nodes `0..nodes.len()`.  `adjacency[u]` lists the
/// targets of the edges leaving `u`, `reverse_adjacency[v]` the sources of the
/// edges entering `v`, and `node_map` finds a node by its pair of names.
pub struct DirectedGraph {
    pub nodes: Vec<GraphNode>,
    pub adjacency: Vec<Vec<usize>>,
    pub reverse_adjacency: Vec<Vec<usize>>,
    pub node_map: PairMap,
}

impl DirectedGraph {
    /// The number of nodes.
    pub open spec fn n(&self) -> int {
        self.nodes@.len() as int
    }

    /// The targets of the edges leaving `u`.
    pub open spec fn adj(&self, u: int) -> Seq<usize> {
        self.adjacency@[u]@
    }

    /// The sources of the edges entering `v`.
    pub open spec fn radj(&self, v: int) -> Seq<usize> {
        self.reverse_adjacency@[v]@
    }

    /// There is an edge from `u` to `v`.
    pub open spec fn edge(&self, u: int, v: int) -> bool {
        0 <= u < self.n() && 0 <= v < self.n() && self.adj(u).contains(v as usize)
    }

    /// The keys of the nodes, in node order.
    pub open spec fn keys(&self) -> Seq<(Seq<char>, Seq<char>)> {
        self.nodes@.map_values(|nd: GraphNode| nd.key())
    }

    /// The graph is well formed: both adjacency structures cover every node,
    /// name only nodes of the graph, hold no repeated entry and describe the
    /// same edges; and the node map finds each node, and only it, by its key.
    pub open spec fn wf(&self) -> bool {
        let n = self.n();
        &&& self.adjacency@.len() == n
        &&& self.reverse_adjacency@.len() == n
        &&& forall|u: int, i: int| 0 <= u < n && 0 <= i < self.adj(u).len() ==> #[trigger] self.adj(u)[i] < n
        &&& forall|v: int, i: int| 0 <= v < n && 0 <= i < self.radj(v).len() ==> #[trigger] self.radj(v)[i] < n
        &&& forall|u: int| 0 <= u < n ==> #[trigger] self.adj(u).no_duplicates()
        &&& forall|v: int| 0 <= v < n ==> #[trigger] self.radj(v).no_duplicates()
        &&& forall|u: int, v: int| 0 <= u < n && 0 <= v < n ==>
            (#[trigger] self.adj(u).contains(v as usize) <==> #[trigger] self.radj(v).contains(u as usize))
        &&& forall|i: int, j: int| 0 <= i < n && 0 <= j < n && i != j ==>
            #[trigger] self.nodes@[i].key() != #[trigger] self.nodes@[j].key()
        &&& forall|i: int| 0 <= i < n ==>
            #[trigger] pair_map_contents(self.node_map).dom().contains(self.nodes@[i].key())
            && pair_map_contents(self.node_map)[self.nodes@[i].key()] == i
        &&& forall|k: (Seq<char>, Seq<char>)| #[trigger] pair_map_contents(self.node_map).dom().contains(k)
            ==> pair_map_contents(self.node_map)[k] < n && self.nodes@[pair_map_contents(self.node_map)[k] as int].key() == k
    }

    /// The index of the node whose key is `k`, when there is one.
    pub open spec fn find(&self, k: (Seq<char>, Seq<char>)) -> Option<usize> {
        if pair_map_contents(self.node_map).dom().contains(k) {
            Some(pair_map_contents(self.node_map)[k])
        } else {
            None
        }
    }

    /// Number of edges entering `v`.
    pub open spec fn spec_in_degree(&self, v: int) -> nat {
        if 0 <= v < self.reverse_adjacency@.len() { self.reverse_adjacency@[v]@.len() } else { 0 }
    }

    /// Number of edges leaving `u`.
    pub open spec fn spec_out_degree(&self, u: int) -> nat {
        if 0 <= u < self.adjacency@.len() { self.adjacency@[u]@.len() } else { 0 }
    }

    /// The sum of the lengths of the first `k` adjacency lists.
    pub open spec fn edges_before(&self, k: int) -> nat
        decreases k,
    {
        if k <= 0 { 0 } else { self.edges_before(k - 1) + self.adjacency@[k - 1]@.len() }
    }

    /// The number of edges.
    pub open spec fn spec_edge_count(&self) -> nat {
        self.edges_before(self.adjacency@.len() as int)
    }

    /// An empty graph.
    pub fn new() -> (g: Self)
        ensures
            g.wf(),
            g.n() == 0,
    {
        DirectedGraph {
            nodes: Vec::new(),
            adjacency: Vec::new(),
            reverse_adjacency: Vec::new(),
            node_map: pair_map_new(),
        }
    }

    /// Adds `node` unless a node with the same names is there already, and
    /// returns the index of the node with those names.  A new node has no edges.
    pub fn add_node(&mut self, node: GraphNode) -> (idx: usize)
        requires
            old(self).wf(),
        ensures
            final(self).wf(),
            old(self).find(node.key()) is Some ==> {
                &&& idx == old(self).find(node.key())->0
                &&& *final(self) == *old(self)
            },
            old(self).find(node.key()) is None ==> {
                &&& idx == old(self).n()
                &&& final(self).nodes@ == old(self).nodes@.push(node)
                &&& forall|u: int| 0 <= u < old(self).n() ==> #[trigger] final(self).adj(u) == old(self).adj(u)
                &&& forall|u: int| 0 <= u < old(self).n() ==> #[trigger] final(self).radj(u) == old(self).radj(u)
                &&& final(self).adj(idx as int) == Seq::<usize>::empty()
                &&& final(self).radj(idx as int) == Seq::<usize>::empty()
            },
            final(self).nodes@[idx as int].key() == node.key(),
            idx < final(self).n(),
    {
        if let Some(idx) = pair_map_get(&self.node_map, &node.ied_name, &node.ap_name) {
            return idx;
        }
        let idx = self.nodes.len();
        let ghost old_g = *self;
        pair_map_insert(&mut self.node_map, node.ied_name.clone(), node.ap_name.clone(), idx);
        let ghost k = node.key();
        self.nodes.push(node);
        self.adjacency.push(Vec::new());
        self.reverse_adjacency.push(Vec::new());
        proof {
            let n = self.n();
            assert forall|u: int| 0 <= u < n implies #[trigger] self.adj(u) == if u < n - 1 { old_g.adj(u) } else { Seq::<usize>::empty() } by {}
            assert forall|u: int| 0 <= u < n implies #[trigger] self.radj(u) == if u < n - 1 { old_g.radj(u) } else { Seq::<usize>::empty() } by {}
            assert forall|kk: (Seq<char>, Seq<char>)| #[trigger] pair_map_contents(self.node_map).dom().contains(kk)
                implies pair_map_contents(self.node_map)[kk] < n && self.nodes@[pair_map_contents(self.node_map)[kk] as int].key() == kk by {
                if kk != k {
                    assert(pair_map_contents(old_g.node_map).dom().contains(kk));
                }
            }
            assert forall|i: int| 0 <= i < n implies
                #[trigger] pair_map_contents(self.node_map).dom().contains(self.nodes@[i].key())
                && pair_map_contents(self.node_map)[self.nodes@[i].key()] == i by {
                if i < n - 1 {
                    assert(self.nodes@[i] == old_g.nodes@[i]);
                    assert(old_g.nodes@[i].key() != k);
                }
            }
        }
        idx
    }

    /// Adds the edge `from -> to` when both are nodes and the edge is not
    /// there yet; otherwise leaves the graph as it is.
    pub fn add_edge(&mut self, from: usize, to: usize)
        requires
            old(self).wf(),
        ensures
            final(self).wf(),
            final(self).nodes@ == old(self).nodes@,
            final(self).node_map == old(self).node_map,
            forall|u: int, v: int| final(self).edge(u, v) <==>
                (old(self).edge(u, v) || (u == from && v == to && from < old(self).n() && to < old(self).n())),
            (from >= old(self).n() || to >= old(self).n() || old(self).edge(from as int, to as int)) ==> *final(self) == *old(self),
            !(from >= old(self).n() || to >= old(self).n() || old(self).edge(from as int, to as int)) ==> {
                &&& forall|u: int| 0 <= u < final(self).n() ==> #[trigger] final(self).adj(u)
                    == if u == from { old(self).adj(u).push(to) } else { old(self).adj(u) }
                &&& forall|v: int| 0 <= v < final(self).n() ==> #[trigger] final(self).radj(v)
                    == if v == to { old(self).radj(v).push(from) } else { old(self).radj(v) }
            },
    {
        if from >= self.nodes.len() || to >= self.nodes.len() {
            return;
        }
        if contains_index(&self.adjacency[from], to) {
            return;
        }
        let ghost old_g = *self;
        assert(!old_g.adj(from as int).contains(to));
        assert(!old_g.radj(to as int).contains(from)) by {
            assert(old_g.adj(from as int).contains((to as int) as usize) <==> old_g.radj(to as int).contains((from as int) as usize));
        }
        let mut row: Vec<usize> = Vec::new();
        std::mem::swap(&mut row, &mut self.adjacency[from]);
        row.push(to);
        self.adjacency.set(from, row);
        let mut rrow: Vec<usize> = Vec::new();
        std::mem::swap(&mut rrow, &mut self.reverse_adjacency[to]);
        rrow.push(from);
        self.reverse_adjacency.set(to, rrow);
        proof {
            let n = self.n();
            assert forall|u: int| 0 <= u < n implies #[trigger] self.adj(u)
                == if u == from { old_g.adj(u).push(to) } else { old_g.adj(u) } by {}
            assert forall|v: int| 0 <= v < n implies #[trigger] self.radj(v)
                == if v == to { old_g.radj(v).push(from) } else { old_g.radj(v) } by {}
            assert forall|u: int, i: int| 0 <= u < n && 0 <= i < self.adj(u).len() implies #[trigger] self.adj(u)[i] < n by {
                if u == from && i == old_g.adj(u).len() {} else { assert(self.adj(u)[i] == old_g.adj(u)[i]); }
            }
            assert forall|v: int, i: int| 0 <= v < n && 0 <= i < self.radj(v).len() implies #[trigger] self.radj(v)[i] < n by {
                if v == to && i == old_g.radj(v).len() {} else { assert(self.radj(v)[i] == old_g.radj(v)[i]); }
            }
            assert forall|u: int, v: int| 0 <= u < n && 0 <= v < n implies
                (#[trigger] self.adj(u).contains(v as usize) <==> (old_g.adj(u).contains(v as usize) || (u == from && v == to))) by {
                if u == from {
                    if self.adj(u).contains(v as usize) {
                        let i = choose|i: int| 0 <= i < self.adj(u).len() && self.adj(u)[i] == v as usize;
                        if i < old_g.adj(u).len() { assert(old_g.adj(u)[i] == v as usize); }
                    }
                    if old_g.adj(u).contains(v as usize) {
                        let i = choose|i: int| 0 <= i < old_g.adj(u).len() && old_g.adj(u)[i] == v as usize;
                        assert(self.adj(u)[i] == v as usize);
                    }
                    if v == to { assert(self.adj(u)[old_g.adj(u).len() as int] == v as usize); }
                }
            }
            assert forall|u: int, v: int| 0 <= u < n && 0 <= v < n implies
                (#[trigger] self.radj(v).contains(u as usize) <==> (old_g.radj(v).contains(u as usize) || (u == from && v == to))) by {
                if v == to {
                    if self.radj(v).contains(u as usize) {
                        let i = choose|i: int| 0 <= i < self.radj(v).len() && self.radj(v)[i] == u as usize;
                        if i < old_g.radj(v).len() { assert(old_g.radj(v)[i] == u as usize); }
                    }
                    if old_g.radj(v).contains(u as usize) {
                        let i = choose|i: int| 0 <= i < old_g.radj(v).len() && old_g.radj(v)[i] == u as usize;
                        assert(self.radj(v)[i] == u as usize);
                    }
                    if u == from { assert(self.radj(v)[old_g.radj(v).len() as int] == u as usize); }
                }
            }
            assert forall|u: int, v: int| 0 <= u < n && 0 <= v < n implies
                (#[trigger] self.adj(u).contains(v as usize) <==> #[trigger] self.radj(v).contains(u as usize)) by {
                assert(old_g.adj(u).contains(v as usize) <==> old_g.radj(v).contains(u as usize));
            }
            assert forall|u: int, v: int| #[trigger] self.edge(u, v) <==>
                (old_g.edge(u, v) || (u == from && v == to)) by {
                if 0 <= u < n && 0 <= v < n {
                    assert(self.adj(u).contains(v as usize) <==> (old_g.adj(u).contains(v as usize) || (u == from && v == to)));
                }
            }
            assert forall|u: int| 0 <= u < n implies #[trigger] self.adj(u).no_duplicates() by {
                if u == from {
                    assert forall|i: int, j: int| 0 <= i < j < self.adj(u).len() implies self.adj(u)[i] != self.adj(u)[j] by {
                        if j == old_g.adj(u).len() {
                            assert(old_g.adj(u)[i] == self.adj(u)[i]);
                            assert(old_g.adj(u)[i] != to);
                        } else {
                            assert(old_g.adj(u).no_duplicates());
                            assert(old_g.adj(u)[i] == self.adj(u)[i] && old_g.adj(u)[j] == self.adj(u)[j]);
                        }
                    }
                }
            }
            assert forall|v: int| 0 <= v < n implies #[trigger] self.radj(v).no_duplicates() by {
                if v == to {
                    assert(!old_g.radj(v).contains(from));
                    assert forall|i: int, j: int| 0 <= i < j < self.radj(v).len() implies self.radj(v)[i] != self.radj(v)[j] by {
                        if j == old_g.radj(v).len() {
                            assert(old_g.radj(v)[i] == self.radj(v)[i]);
                            assert(old_g.radj(v)[i] != from);
                        } else {
                            assert(old_g.radj(v).no_duplicates());
                            assert(old_g.radj(v)[i] == self.radj(v)[i] && old_g.radj(v)[j] == self.radj(v)[j]);
                        }
                    }
                }
            }
        }
    }

    /// Number of edges leaving `idx`; 0 when `idx` is not a node.
    pub fn out_degree(&self, idx: usize) -> (d: usize)
        ensures
            d == self.spec_out_degree(idx as int),
    {
        if idx < self.adjacency.len() {
            self.adjacency[idx].len()
        } else {
            0
        }
    }

    /// Number of edges entering `idx`; 0 when `idx` is not a node.
    pub fn in_degree(&self, idx: usize) -> (d: usize)
        ensures
            d == self.spec_in_degree(idx as int),
    {
        if idx < self.reverse_adjacency.len() {
            self.reverse_adjacency[idx].len()
        } else {
            0
        }
    }

    /// Number of nodes.
    pub fn node_count(&self) -> (c: usize)
        ensures
            c == self.n(),
    {
        self.nodes.len()
    }

    /// Number of edges.
    pub fn edge_count(&self) -> (c: usize)
        requires
            self.spec_edge_count() <= usize::MAX,
        ensures
            c == self.spec_edge_count(),
    {
        let mut total: usize = 0;
        let mut k: usize = 0;
        while k < self.adjacency.len()
            invariant
                k <= self.adjacency@.len(),
                total == self.edges_before(k as int),
                self.spec_edge_count() <= usize::MAX,
            decreases self.adjacency@.len() - k,
        {
            proof { lemma_edges_before_monotone(self, (k + 1) as int, self.adjacency@.len() as int); }
            total = total + self.adjacency[k].len();
            k = k + 1;
        }
        total
    }
}

impl Default for DirectedGraph {
    /// An empty graph.
    fn default() -> (g: Self)
        ensures
            g.wf(),
            g.n() == 0,
    {
        DirectedGraph::new()
    }
}

/// Edge counts of prefixes grow with the prefix.
pub proof fn lemma_edges_before_monotone(g: &DirectedGraph, a: int, b: int)
    requires
        a <= b,
    ensures
        g.edges_before(a) <= g.edges_before(b),
    decreases b - a,
{
    if a < b {
        lemma_edges_before_monotone(g, a, b - 1);
    }
}

/// Whether `v` occurs in `row`.
pub fn contains_index(row: &Vec<usize>, v: usize) -> (b: bool)
    ensures
        b == row@.contains(v),
{
    let mut i: usize = 0;
    while i < row.len()
        invariant
            i <= row@.len(),
            forall|j: int| 0 <= j < i ==> row@[j] != v,
        decreases row@.len() - i,
    {
        if row[i] == v {
            return true;
        }
        i = i + 1;
    }
    false
}

/// The part a device plays in a protection signal chain.
#[derive(Debug, Clone, Copy, PartialEq, Eq, Structural, Hash)]
pub enum IEDRole {
    ProtectionRelay,
    MergingUnit,
    BayControlUnit,
    CircuitBreaker,
    Switch,
    MonitoringDevice,
    Unknown,
}

/// The delays, in microseconds, that a signal meets in passing one device.
#[derive(Debug, Clone, Copy, PartialEq, Eq, Structural, Hash)]
pub struct DelayProfile {
    pub internal_processing_us: u64,
    pub bus_forwarding_us: u64,
    pub switch_backplane_us: u64,
    pub network_propagation_us: u64,
}

impl DelayProfile {
    /// The sum of the four delays.
    pub open spec fn spec_total(self) -> nat {
        (self.internal_processing_us + self.bus_forwarding_us + self.switch_backplane_us
            + self.network_propagation_us) as nat
    }

    /// The sum of the four delays.
    pub fn total_us(&self) -> (t: u64)
        requires
            self.spec_total() <= u64::MAX,
        ensures
            t == self.spec_total(),
    {
        self.internal_processing_us + self.bus_forwarding_us + self.switch_backplane_us + self.network_propagation_us
    }

    /// A protection relay.
    pub open spec fn spec_protection_device() -> DelayProfile {
        DelayProfile { internal_processing_us: 1000, bus_forwarding_us: 100, switch_backplane_us: 100, network_propagation_us: 50 }
    }

    /// A merging unit.
    pub open spec fn spec_merging_unit() -> DelayProfile {
        DelayProfile { internal_processing_us: 250, bus_forwarding_us: 50, switch_backplane_us: 100, network_propagation_us: 50 }
    }

    /// A bay control unit.
    pub open spec fn spec_bay_control() -> DelayProfile {
        DelayProfile { internal_processing_us: 400, bus_forwarding_us: 50, switch_backplane_us: 100, network_propagation_us: 50 }
    }

    /// A circuit breaker controller.
    pub open spec fn spec_circuit_breaker() -> DelayProfile {
        DelayProfile { internal_processing_us: 2000, bus_forwarding_us: 50, switch_backplane_us: 100, network_propagation_us: 50 }
    }

    /// A network switch.
    pub open spec fn spec_switch_node() -> DelayProfile {
        DelayProfile { internal_processing_us: 10, bus_forwarding_us: 0, switch_backplane_us: 20, network_propagation_us: 10 }
    }

    /// A device of unknown kind.
    pub open spec fn spec_default() -> DelayProfile {
        DelayProfile { internal_processing_us: 200, bus_forwarding_us: 50, switch_backplane_us: 100, network_propagation_us: 50 }
    }

    /// A protection relay.
    pub fn protection_device() -> (p: DelayProfile)
        ensures
            p == DelayProfile::spec_protection_device(),
    {
        DelayProfile { internal_processing_us: 1000, bus_forwarding_us: 100, switch_backplane_us: 100, network_propagation_us: 50 }
    }

    /// A merging unit.
    pub fn merging_unit() -> (p: DelayProfile)
        ensures
            p == DelayProfile::spec_merging_unit(),
    {
        DelayProfile { internal_processing_us: 250, bus_forwarding_us: 50, switch_backplane_us: 100, network_propagation_us: 50 }
    }

    /// A bay control unit.
    pub fn bay_control() -> (p: DelayProfile)
        ensures
            p == DelayProfile::spec_bay_control(),
    {
        DelayProfile { internal_processing_us: 400, bus_forwarding_us: 50, switch_backplane_us: 100, network_propagation_us: 50 }
    }

    /// A circuit breaker controller.
    pub fn circuit_breaker() -> (p: DelayProfile)
        ensures
            p == DelayProfile::spec_circuit_breaker(),
    {
        DelayProfile { internal_processing_us: 2000, bus_forwarding_us: 50, switch_backplane_us: 100, network_propagation_us: 50 }
    }

    /// A network switch.
    pub fn switch_node() -> (p: DelayProfile)
        ensures
            p == DelayProfile::spec_switch_node(),
    {
        DelayProfile { internal_processing_us: 10, bus_forwarding_us: 0, switch_backplane_us: 20, network_propagation_us: 10 }
    }
}

impl Default for DelayProfile {
    /// A device of unknown kind.
    fn default() -> (p: DelayProfile)
        ensures
            p == DelayProfile::spec_default(),
    {
        DelayProfile { internal_processing_us: 200, bus_forwarding_us: 50, switch_backplane_us: 100, network_propagation_us: 50 }
    }
}

/// One path of a protection signal, from a relay to a breaker-side device.
#[derive(Debug)]
pub struct TimingPath {
    /// The label `IED/access point` of each node on the path, in order.
    pub nodes: Vec<String>,
    /// The sum of the delays of all nodes on the path.
    pub total_delay_us: u64,
    /// For each node: its label, its delay profile and the profile's total.
    pub per_node_delays: Vec<(String, DelayProfile, u64)>,
    pub is_critical: bool,
    pub exceeds_threshold: bool,
}

/// A path whose delay exceeds the threshold, by how much, and how badly.
#[derive(Debug)]
pub struct TimingViolation {
    pub path: TimingPath,
    pub excess_us: u64,
    pub severity: ViolationSeverity,
}

/// Everything the timing analysis finds.
#[derive(Debug)]
pub struct TimingAnalysisResult {
    pub threshold_ms: u64,
    pub topological_order: Vec<usize>,
    pub node_arrival_times: Vec<u64>,
    pub node_delay_profiles: Vec<DelayProfile>,
    pub critical_paths: Vec<TimingPath>,
    pub all_paths: Vec<TimingPath>,
    pub protection_triggers: Vec<usize>,
    pub breaker_terminals: Vec<usize>,
    pub violations: Vec<TimingViolation>,
    pub has_cycles: bool,
}

} // verus!
