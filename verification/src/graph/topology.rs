//! Counts that describe a configuration and its communication graph.

use vstd::prelude::*;

use crate::graph::digraph::{all_access_points, ied_access_points, ApEntry};
use crate::graph::facts::is_scc_partition;
use crate::graph::scc::{largest_len, largest_part_len, TarjanSCC};
use crate::model::{AccessPoint, DirectedGraph, NodeType, SCDModel, TopologyStats, IED};

verus! {

/// The sum of `f` over the access points of `entries`.
pub open spec fn ap_total(entries: Seq<ApEntry>, f: spec_fn(AccessPoint) -> nat) -> nat
    decreases entries.len(),
{
    if entries.len() == 0 {
        0
    } else {
        ap_total(entries.drop_last(), f) + f(entries.last().1)
    }
}

/// Number of GOOSE control blocks an access point publishes.
pub open spec fn goose_pub_count(ap: AccessPoint) -> nat {
    ap.goose_pubs@.len()
}

/// Number of GOOSE subscriptions of an access point.
pub open spec fn goose_sub_count(ap: AccessPoint) -> nat {
    ap.goose_subs@.len()
}

/// Number of SV control blocks an access point publishes.
pub open spec fn sv_pub_count(ap: AccessPoint) -> nat {
    ap.sv_pubs@.len()
}

/// Number of SV subscriptions of an access point.
pub open spec fn sv_sub_count(ap: AccessPoint) -> nat {
    ap.sv_subs@.len()
}

/// Number of nodes below `k` with neither incoming nor outgoing edges.
pub open spec fn isolated_before(g: &DirectedGraph, k: int) -> nat
    decreases k,
{
    if k <= 0 {
        0
    } else if g.spec_out_degree(k - 1) == 0 && g.spec_in_degree(k - 1) == 0 {
        isolated_before(g, k - 1) + 1
    } else {
        isolated_before(g, k - 1)
    }
}

/// The sum of the in-degrees of the nodes below `k`.
pub open spec fn in_edges_before(g: &DirectedGraph, k: int) -> nat
    decreases k,
{
    if k <= 0 { 0 } else { in_edges_before(g, k - 1) + g.spec_in_degree(k - 1) }
}

/// The largest out-degree among the nodes below `k`, 0 when there is none.
pub open spec fn max_out_before(g: &DirectedGraph, k: int) -> nat
    decreases k,
{
    if k <= 0 {
        0
    } else {
        let m = max_out_before(g, k - 1);
        if g.spec_out_degree(k - 1) > m { g.spec_out_degree(k - 1) } else { m }
    }
}

/// The largest in-degree among the nodes below `k`, 0 when there is none.
pub open spec fn max_in_before(g: &DirectedGraph, k: int) -> nat
    decreases k,
{
    if k <= 0 {
        0
    } else {
        let m = max_in_before(g, k - 1);
        if g.spec_in_degree(k - 1) > m { g.spec_in_degree(k - 1) } else { m }
    }
}

/// Among the nodes below `k`, the largest in-degree and the largest
/// out-degree bound every node's degree and are reached by some node; with
/// no node they are 0.
pub proof fn lemma_max_degrees(g: &DirectedGraph, k: int)
    ensures
        forall|v: int| 0 <= v < k ==> #[trigger] g.spec_in_degree(v) <= max_in_before(g, k),
        forall|v: int| 0 <= v < k ==> #[trigger] g.spec_out_degree(v) <= max_out_before(g, k),
        k > 0 ==> exists|v: int| 0 <= v < k && #[trigger] g.spec_in_degree(v) == max_in_before(g, k),
        k > 0 ==> exists|v: int| 0 <= v < k && #[trigger] g.spec_out_degree(v) == max_out_before(g, k),
        k <= 0 ==> max_in_before(g, k) == 0 && max_out_before(g, k) == 0,
    decreases k,
{
    if k > 0 {
        lemma_max_degrees(g, k - 1);
        if k - 1 > 0 {
            let a = choose|v: int| 0 <= v < k - 1 && #[trigger] g.spec_in_degree(v) == max_in_before(g, k - 1);
            let b = choose|v: int| 0 <= v < k - 1 && #[trigger] g.spec_out_degree(v) == max_out_before(g, k - 1);
            assert(g.spec_in_degree(a) == max_in_before(g, k - 1));
            assert(g.spec_out_degree(b) == max_out_before(g, k - 1));
        }
        assert(g.spec_in_degree(k - 1) <= max_in_before(g, k));
        assert(g.spec_out_degree(k - 1) <= max_out_before(g, k));
    }
}

/// The nodes below `k` with neither incoming nor outgoing edges.
pub open spec fn isolated_set(g: &DirectedGraph, k: int) -> Set<int> {
    Set::new(|v: int| 0 <= v < k && g.spec_out_degree(v) == 0 && g.spec_in_degree(v) == 0)
}

/// The count of isolated nodes is the number of nodes without any edge.
pub proof fn lemma_isolated_count(g: &DirectedGraph, k: int)
    ensures
        isolated_set(g, k).finite(),
        isolated_before(g, k) == isolated_set(g, k).len(),
    decreases k,
{
    if k <= 0 {
        assert(isolated_set(g, k) =~= Set::<int>::empty());
    } else {
        lemma_isolated_count(g, k - 1);
        let s0 = isolated_set(g, k - 1);
        if g.spec_out_degree(k - 1) == 0 && g.spec_in_degree(k - 1) == 0 {
            assert(isolated_set(g, k) =~= s0.insert(k - 1));
            assert(!s0.contains(k - 1));
        } else {
            assert(isolated_set(g, k) =~= s0);
        }
    }
}

/// The counts of a configuration that fit in a machine word.
pub open spec fn counts_fit(model: &SCDModel) -> bool {
    let entries = all_access_points(model.ieds@);
    &&& ap_total(entries, |ap: AccessPoint| goose_pub_count(ap)) <= usize::MAX
    &&& ap_total(entries, |ap: AccessPoint| goose_sub_count(ap)) <= usize::MAX
    &&& ap_total(entries, |ap: AccessPoint| sv_pub_count(ap)) <= usize::MAX
    &&& ap_total(entries, |ap: AccessPoint| sv_sub_count(ap)) <= usize::MAX
}

/// The identifier of a node in the DOT language: IED name, `_`, access point name.
pub open spec fn dot_id(g: &DirectedGraph, v: int) -> Seq<char> {
    g.nodes@[v].ied_name@ + "_"@ + g.nodes@[v].ap_name@
}

/// The fill colour of a node of a kind.
pub open spec fn fill_of(t: NodeType) -> Seq<char> {
    match t {
        NodeType::Publisher => "fillcolor=lightgreen"@,
        NodeType::Subscriber => "fillcolor=lightcoral"@,
        NodeType::Switch => "fillcolor=gold"@,
        NodeType::IED => "fillcolor=lightblue"@,
    }
}

/// The DOT line of node `v`.
pub open spec fn node_line(g: &DirectedGraph, v: int) -> Seq<char> {
    "  \""@ + dot_id(g, v) + "\" [label=\""@ + g.nodes@[v].ied_name@ + "\\n("@ + g.nodes@[v].ap_name@ + ")\", "@
        + fill_of(g.nodes@[v].node_type) + "];"@
}

/// The DOT line of the edge from `u` to `v`.
pub open spec fn edge_line(g: &DirectedGraph, u: int, v: int) -> Seq<char> {
    "  \""@ + dot_id(g, u) + "\" -> \""@ + dot_id(g, v) + "\";"@
}

/// The DOT lines of the edges leaving the first `k` nodes, node by node.
pub open spec fn edge_lines(g: &DirectedGraph, k: int) -> Seq<Seq<char>>
    decreases k,
{
    if k <= 0 {
        Seq::empty()
    } else {
        edge_lines(g, k - 1) + g.adj(k - 1).map_values(|w: usize| edge_line(g, k - 1, w as int))
    }
}

/// The graph in the DOT language, line by line.
pub open spec fn dot_lines(g: &DirectedGraph) -> Seq<Seq<char>> {
    seq!["digraph SCDTopology {"@, "  rankdir=LR;"@, "  node [shape=box, style=filled, color=lightblue];"@, Seq::empty()]
        + Seq::new(g.n() as nat, |v: int| node_line(g, v)) + edge_lines(g, g.n()) + seq!["}"@]
}


/// The edges leaving the first `k` nodes, as pairs of nodes.
spec fn out_pairs(g: &DirectedGraph, k: int) -> Set<(usize, usize)> {
    Set::new(|e: (usize, usize)| e.0 < k && g.edge(e.0 as int, e.1 as int))
}

/// The edges entering the first `k` nodes, as pairs of nodes.
spec fn in_pairs(g: &DirectedGraph, k: int) -> Set<(usize, usize)> {
    Set::new(|e: (usize, usize)| e.1 < k && g.edge(e.0 as int, e.1 as int))
}

/// The edges leaving `u` are as many as the entries of its edge list.
proof fn lemma_row_pairs(g: &DirectedGraph, u: usize)
    requires
        g.wf(),
        u < g.n(),
    ensures
        Set::new(|e: (usize, usize)| e.0 == u && g.edge(e.0 as int, e.1 as int)).finite(),
        Set::new(|e: (usize, usize)| e.0 == u && g.edge(e.0 as int, e.1 as int)).len() == g.adj(u as int).len(),
{
    let row = Set::new(|e: (usize, usize)| e.0 == u && g.edge(e.0 as int, e.1 as int));
    let s = g.adj(u as int);
    s.unique_seq_to_set();
    vstd::seq_lib::seq_to_set_is_finite(s);
    let f = |v: usize| (u, v);
    assert(s.to_set().map(f) =~= row) by {
        assert forall|e: (usize, usize)| row.contains(e) implies s.to_set().map(f).contains(e) by {
            assert(s.to_set().contains(e.1));
            assert(f(e.1) == e);
        }
        assert forall|e: (usize, usize)| s.to_set().map(f).contains(e) implies row.contains(e) by {
            let v = choose|v: usize| s.to_set().contains(v) && f(v) == e;
            let i = choose|i: int| 0 <= i < s.len() && s[i] == v;
            assert(g.adj(u as int)[i] < g.n());
        }
    }
    assert(vstd::relations::injective_on(f, s.to_set()));
    vstd::set_lib::lemma_map_size(s.to_set(), row, f);
}

/// The edges entering `v` are as many as the entries of its list of
/// sources.
proof fn lemma_col_pairs(g: &DirectedGraph, v: usize)
    requires
        g.wf(),
        v < g.n(),
    ensures
        Set::new(|e: (usize, usize)| e.1 == v && g.edge(e.0 as int, e.1 as int)).finite(),
        Set::new(|e: (usize, usize)| e.1 == v && g.edge(e.0 as int, e.1 as int)).len() == g.radj(v as int).len(),
{
    let col = Set::new(|e: (usize, usize)| e.1 == v && g.edge(e.0 as int, e.1 as int));
    let s = g.radj(v as int);
    s.unique_seq_to_set();
    vstd::seq_lib::seq_to_set_is_finite(s);
    let f = |u: usize| (u, v);
    assert(s.to_set().map(f) =~= col) by {
        assert forall|e: (usize, usize)| col.contains(e) implies s.to_set().map(f).contains(e) by {
            assert(g.adj(e.0 as int).contains((v as int) as usize) <==> g.radj(v as int).contains((e.0 as int) as usize));
            assert(s.to_set().contains(e.0));
            assert(f(e.0) == e);
        }
        assert forall|e: (usize, usize)| s.to_set().map(f).contains(e) implies col.contains(e) by {
            let u = choose|u: usize| s.to_set().contains(u) && f(u) == e;
            let i = choose|i: int| 0 <= i < s.len() && s[i] == u;
            assert(g.radj(v as int)[i] < g.n());
            assert(g.adj(u as int).contains((v as int) as usize) <==> g.radj(v as int).contains((u as int) as usize));
        }
    }
    assert(vstd::relations::injective_on(f, s.to_set()));
    vstd::set_lib::lemma_map_size(s.to_set(), col, f);
}

/// The edges leaving the first `k` nodes are as many as the entries of
/// their edge lists.
proof fn lemma_out_pairs(g: &DirectedGraph, k: int)
    requires
        g.wf(),
        0 <= k <= g.n(),
    ensures
        out_pairs(g, k).finite(),
        out_pairs(g, k).len() == g.edges_before(k),
    decreases k,
{
    if k == 0 {
        assert(out_pairs(g, 0) =~= Set::<(usize, usize)>::empty());
    } else {
        assert(g.nodes@.len() == g.nodes.len());
        let u = (k - 1) as usize;
        assert(u as int == k - 1);
        lemma_out_pairs(g, k - 1);
        lemma_row_pairs(g, u);
        let row = Set::new(|e: (usize, usize)| e.0 == u && g.edge(e.0 as int, e.1 as int));
        assert(out_pairs(g, k) =~= out_pairs(g, k - 1) + row);
        assert(out_pairs(g, k - 1).disjoint(row));
        vstd::set_lib::lemma_set_disjoint_lens(out_pairs(g, k - 1), row);
    }
}

/// The edges entering the first `k` nodes are as many as the entries of
/// their lists of sources.
proof fn lemma_in_pairs(g: &DirectedGraph, k: int)
    requires
        g.wf(),
        0 <= k <= g.n(),
    ensures
        in_pairs(g, k).finite(),
        in_pairs(g, k).len() == in_edges_before(g, k),
    decreases k,
{
    if k == 0 {
        assert(in_pairs(g, 0) =~= Set::<(usize, usize)>::empty());
    } else {
        assert(g.nodes@.len() == g.nodes.len());
        let v = (k - 1) as usize;
        assert(v as int == k - 1);
        lemma_in_pairs(g, k - 1);
        lemma_col_pairs(g, v);
        let col = Set::new(|e: (usize, usize)| e.1 == v && g.edge(e.0 as int, e.1 as int));
        assert(in_pairs(g, k) =~= in_pairs(g, k - 1) + col);
        assert(in_pairs(g, k - 1).disjoint(col));
        vstd::set_lib::lemma_set_disjoint_lens(in_pairs(g, k - 1), col);
    }
}

/// In a well-formed graph the in-degrees add up to the number of edges, as
/// the out-degrees do: the total fan-in equals the total fan-out.
pub proof fn lemma_fan_in_equals_fan_out(g: &DirectedGraph)
    requires
        g.wf(),
    ensures
        in_edges_before(g, g.n()) == g.spec_edge_count(),
{
    lemma_out_pairs(g, g.n());
    lemma_in_pairs(g, g.n());
    assert(out_pairs(g, g.n()) =~= in_pairs(g, g.n()));
}

/// Computes the statistics of a configuration and of its graph.
pub struct TopologyAnalyzer;

impl TopologyAnalyzer {
    /// An analyzer; it holds no state.
    pub fn new() -> Self {
        TopologyAnalyzer
    }

    /// The statistics of `scd_model` and of the graph built from it.
    pub fn analyze(scd_model: &SCDModel, graph: &DirectedGraph) -> (s: TopologyStats)
        requires
            graph.wf(),
            counts_fit(scd_model),
            all_access_points(scd_model.ieds@).len() <= usize::MAX,
            graph.spec_edge_count() <= usize::MAX,
            in_edges_before(graph, graph.n()) <= usize::MAX,
        ensures
            s.total_ieds == scd_model.ieds@.len(),
            s.total_access_points == all_access_points(scd_model.ieds@).len(),
            s.total_goose_pubs == ap_total(all_access_points(scd_model.ieds@), |ap: AccessPoint| goose_pub_count(ap)),
            s.total_goose_subs == ap_total(all_access_points(scd_model.ieds@), |ap: AccessPoint| goose_sub_count(ap)),
            s.total_sv_pubs == ap_total(all_access_points(scd_model.ieds@), |ap: AccessPoint| sv_pub_count(ap)),
            s.total_sv_subs == ap_total(all_access_points(scd_model.ieds@), |ap: AccessPoint| sv_sub_count(ap)),
            s.total_goose_connections == scd_model.goose_connections@.len(),
            s.total_sv_connections == scd_model.sv_connections@.len(),
            s.graph_nodes == graph.n(),
            s.graph_edges == graph.spec_edge_count(),
            exists|parts: Seq<Seq<usize>>| #[trigger] is_scc_partition(graph, parts)
                && s.scc_count == parts.len() && s.largest_scc_size == largest_len(parts),
            s.isolated_nodes == isolated_before(graph, graph.n()),
            s.total_fan_out == graph.spec_edge_count(),
            s.max_fan_out == max_out_before(graph, graph.n()),
            s.total_fan_in == in_edges_before(graph, graph.n()),
            s.max_fan_in == max_in_before(graph, graph.n()),
    {
        let counts = Self::count_terminals(scd_model);
        let graph_nodes = graph.node_count();
        let graph_edges = graph.edge_count();
        let sccs = TarjanSCC::compute(graph);
        let scc_count = sccs.len();
        let largest_scc_size = largest_part_len(&sccs);
        let degrees = Self::degree_summary(graph);
        TopologyStats {
            total_ieds: scd_model.ieds.len(),
            total_access_points: counts.0,
            total_goose_pubs: counts.1,
            total_goose_subs: counts.2,
            total_sv_pubs: counts.3,
            total_sv_subs: counts.4,
            total_goose_connections: scd_model.goose_connections.len(),
            total_sv_connections: scd_model.sv_connections.len(),
            graph_nodes,
            graph_edges,
            scc_count,
            largest_scc_size,
            isolated_nodes: degrees.0,
            total_fan_out: degrees.1,
            max_fan_out: degrees.2,
            total_fan_in: degrees.3,
            max_fan_in: degrees.4,
        }
    }

    /// The graph in the DOT language of Graphviz, one text per line.
    pub fn graphviz_lines(graph: &DirectedGraph) -> (r: Vec<String>)
        requires
            graph.wf(),
        ensures
            r@.map_values(|s: String| s@) == dot_lines(graph),
    {
        let ghost f = |s: String| s@;
        let mut out: Vec<String> = Vec::new();
        out.push(String::from_str("digraph SCDTopology {"));
        out.push(String::from_str("  rankdir=LR;"));
        out.push(String::from_str("  node [shape=box, style=filled, color=lightblue];"));
        out.push(String::new());
        let ghost head = out@.map_values(f);
        proof {
            assert(head =~= seq!["digraph SCDTopology {"@, "  rankdir=LR;"@, "  node [shape=box, style=filled, color=lightblue];"@, Seq::empty()]);
        }
        let n = graph.node_count();
        let mut v: usize = 0;
        while v < n
            invariant
                n == graph.n(),
                v <= n,
                f == |s: String| s@,
                out@.map_values(f) == head + Seq::new(v as nat, |x: int| node_line(graph, x)),
            decreases n - v,
        {
            let node = &graph.nodes[v];
            let mut line = String::from_str("  \"");
            line.append(node.ied_name.as_str());
            line.append("_");
            line.append(node.ap_name.as_str());
            line.append("\" [label=\"");
            line.append(node.ied_name.as_str());
            line.append("\\n(");
            line.append(node.ap_name.as_str());
            line.append(")\", ");
            let fill = match node.node_type {
                NodeType::Publisher => "fillcolor=lightgreen",
                NodeType::Subscriber => "fillcolor=lightcoral",
                NodeType::Switch => "fillcolor=gold",
                NodeType::IED => "fillcolor=lightblue",
            };
            line.append(fill);
            line.append("];");
            let ghost o0 = out@;
            out.push(line);
            proof {
                assert(line@ =~= node_line(graph, v as int));
                assert(out@.map_values(f) =~= o0.map_values(f).push(line@));
                assert(out@.map_values(f) =~= head + Seq::new((v + 1) as nat, |x: int| node_line(graph, x)));
            }
            v = v + 1;
        }
        let ghost nodes_part = out@.map_values(f);
        let mut u: usize = 0;
        proof { assert(nodes_part + edge_lines(graph, 0) =~= nodes_part); }
        while u < n
            invariant
                n == graph.n(),
                graph.wf(),
                u <= n,
                f == |s: String| s@,
                out@.map_values(f) == nodes_part + edge_lines(graph, u as int),
            decreases n - u,
        {
            let row = &graph.adjacency[u];
            let ghost base = out@.map_values(f);
            let mut j: usize = 0;
            proof { assert(base + graph.adj(u as int).take(0).map_values(|w: usize| edge_line(graph, u as int, w as int)) =~= base); }
            while j < row.len()
                invariant
                    n == graph.n(),
                    graph.wf(),
                    u < n,
                    *row == graph.adjacency@[u as int],
                    j <= row@.len(),
                    f == |s: String| s@,
                    out@.map_values(f) == base + row@.take(j as int).map_values(|w: usize| edge_line(graph, u as int, w as int)),
                decreases row@.len() - j,
            {
                let w = row[j];
                proof { assert(graph.adj(u as int)[j as int] == w); }
                let from = &graph.nodes[u];
                let to = &graph.nodes[w];
                let mut line = String::from_str("  \"");
                line.append(from.ied_name.as_str());
                line.append("_");
                line.append(from.ap_name.as_str());
                line.append("\" -> \"");
                line.append(to.ied_name.as_str());
                line.append("_");
                line.append(to.ap_name.as_str());
                line.append("\";");
                let ghost o0 = out@;
                out.push(line);
                proof {
                    assert(line@ =~= edge_line(graph, u as int, w as int));
                    assert(out@.map_values(f) =~= o0.map_values(f).push(line@));
                    assert(row@.take(j + 1) =~= row@.take(j as int).push(w));
                    assert(out@.map_values(f) =~= base + row@.take(j + 1).map_values(|x: usize| edge_line(graph, u as int, x as int)));
                }
                j = j + 1;
            }
            proof {
                assert(row@.take(j as int) =~= graph.adj(u as int));
                assert(nodes_part + edge_lines(graph, u + 1) =~= base + graph.adj(u as int).map_values(|x: usize| edge_line(graph, u as int, x as int)));
            }
            u = u + 1;
        }
        let ghost o1 = out@;
        out.push(String::from_str("}"));
        proof {
            assert(out@.map_values(f) =~= o1.map_values(f).push("}"@));
            assert(out@.map_values(f) =~= dot_lines(graph));
        }
        out
    }

    /// The number of access points and the totals of published and
    /// subscribed GOOSE and SV terminals.
    fn count_terminals(model: &SCDModel) -> (r: (usize, usize, usize, usize, usize))
        requires
            counts_fit(model),
            all_access_points(model.ieds@).len() <= usize::MAX,
        ensures
            r.0 == all_access_points(model.ieds@).len(),
            r.1 == ap_total(all_access_points(model.ieds@), |ap: AccessPoint| goose_pub_count(ap)),
            r.2 == ap_total(all_access_points(model.ieds@), |ap: AccessPoint| goose_sub_count(ap)),
            r.3 == ap_total(all_access_points(model.ieds@), |ap: AccessPoint| sv_pub_count(ap)),
            r.4 == ap_total(all_access_points(model.ieds@), |ap: AccessPoint| sv_sub_count(ap)),
    {
        let ghost all = all_access_points(model.ieds@);
        let ghost fgp = |ap: AccessPoint| goose_pub_count(ap);
        let ghost fgs = |ap: AccessPoint| goose_sub_count(ap);
        let ghost fsp = |ap: AccessPoint| sv_pub_count(ap);
        let ghost fss = |ap: AccessPoint| sv_sub_count(ap);
        let mut aps: usize = 0;
        let mut gp: usize = 0;
        let mut gs: usize = 0;
        let mut sp: usize = 0;
        let mut ss: usize = 0;
        let mut i: usize = 0;
        proof { assert(model.ieds@.take(0) =~= Seq::<IED>::empty()); }
        while i < model.ieds.len()
            invariant
                i <= model.ieds@.len(),
                counts_fit(model),
                all == all_access_points(model.ieds@),
                all.len() <= usize::MAX,
                fgp == |ap: AccessPoint| goose_pub_count(ap),
                fgs == |ap: AccessPoint| goose_sub_count(ap),
                fsp == |ap: AccessPoint| sv_pub_count(ap),
                fss == |ap: AccessPoint| sv_sub_count(ap),
                aps == all_access_points(model.ieds@.take(i as int)).len(),
                gp == ap_total(all_access_points(model.ieds@.take(i as int)), fgp),
                gs == ap_total(all_access_points(model.ieds@.take(i as int)), fgs),
                sp == ap_total(all_access_points(model.ieds@.take(i as int)), fsp),
                ss == ap_total(all_access_points(model.ieds@.take(i as int)), fss),
            decreases model.ieds@.len() - i,
        {
            let ied = &model.ieds[i];
            let ghost before = all_access_points(model.ieds@.take(i as int));
            let ghost mine = ied_access_points(*ied);
            proof {
                assert(model.ieds@.take(i + 1).drop_last() =~= model.ieds@.take(i as int));
                assert(model.ieds@.take(i + 1).last() == *ied);
                assert(all_access_points(model.ieds@.take(i + 1)) == before + mine);
                lemma_all_access_points_split(model.ieds@, i + 1);
                assert(mine.take(0) =~= Seq::<ApEntry>::empty());
                assert(before + mine.take(0) =~= before);
            }
            let ghost after = all_access_points(model.ieds@.skip(i + 1));
            let mut j: usize = 0;
            while j < ied.access_points.len()
                invariant
                    i < model.ieds@.len(),
                    *ied == model.ieds@[i as int],
                    j <= ied.access_points@.len(),
                    mine == ied_access_points(*ied),
                    counts_fit(model),
                    all == all_access_points(model.ieds@),
                    all == before + mine + after,
                    all.len() <= usize::MAX,
                    fgp == |ap: AccessPoint| goose_pub_count(ap),
                    fgs == |ap: AccessPoint| goose_sub_count(ap),
                    fsp == |ap: AccessPoint| sv_pub_count(ap),
                    fss == |ap: AccessPoint| sv_sub_count(ap),
                    aps == (before + mine.take(j as int)).len(),
                    gp == ap_total(before + mine.take(j as int), fgp),
                    gs == ap_total(before + mine.take(j as int), fgs),
                    sp == ap_total(before + mine.take(j as int), fsp),
                    ss == ap_total(before + mine.take(j as int), fss),
                decreases ied.access_points@.len() - j,
            {
                let ap = &ied.access_points[j];
                let ghost prev = before + mine.take(j as int);
                let ghost next = before + mine.take(j + 1);
                proof {
                    assert(mine[j as int] == (ied.name@, *ap));
                    assert(next =~= prev.push((ied.name@, *ap)));
                    assert(next.drop_last() =~= prev);
                    assert(all =~= next + (mine.skip(j + 1) + after));
                    lemma_ap_total_concat(next, mine.skip(j + 1) + after, fgp);
                    lemma_ap_total_concat(next, mine.skip(j + 1) + after, fgs);
                    lemma_ap_total_concat(next, mine.skip(j + 1) + after, fsp);
                    lemma_ap_total_concat(next, mine.skip(j + 1) + after, fss);
                    assert(fgp(*ap) == ap.goose_pubs@.len());
                    assert(fgs(*ap) == ap.goose_subs@.len());
                    assert(fsp(*ap) == ap.sv_pubs@.len());
                    assert(fss(*ap) == ap.sv_subs@.len());
                }
                aps = aps + 1;
                gp = gp + ap.goose_pubs.len();
                gs = gs + ap.goose_subs.len();
                sp = sp + ap.sv_pubs.len();
                ss = ss + ap.sv_subs.len();
                j = j + 1;
            }
            proof {
                assert(mine.take(j as int) =~= mine);
            }
            i = i + 1;
        }
        proof { assert(model.ieds@.take(i as int) =~= model.ieds@); }
        (aps, gp, gs, sp, ss)
    }

    /// The number of isolated nodes, the total and largest out-degree, and
    /// the total and largest in-degree.
    fn degree_summary(graph: &DirectedGraph) -> (r: (usize, usize, usize, usize, usize))
        requires
            graph.wf(),
            graph.spec_edge_count() <= usize::MAX,
            in_edges_before(graph, graph.n()) <= usize::MAX,
        ensures
            r.0 == isolated_before(graph, graph.n()),
            r.1 == graph.spec_edge_count(),
            r.2 == max_out_before(graph, graph.n()),
            r.3 == in_edges_before(graph, graph.n()),
            r.4 == max_in_before(graph, graph.n()),
    {
        let n = graph.node_count();
        let mut isolated: usize = 0;
        let mut total_out: usize = 0;
        let mut max_out: usize = 0;
        let mut total_in: usize = 0;
        let mut max_in: usize = 0;
        let mut u: usize = 0;
        while u < n
            invariant
                n == graph.n(),
                graph.wf(),
                u <= n,
                graph.spec_edge_count() <= usize::MAX,
                in_edges_before(graph, graph.n()) <= usize::MAX,
                isolated == isolated_before(graph, u as int),
                isolated <= u,
                total_out == graph.edges_before(u as int),
                max_out == max_out_before(graph, u as int),
                total_in == in_edges_before(graph, u as int),
                max_in == max_in_before(graph, u as int),
            decreases n - u,
        {
            let out_deg = graph.out_degree(u);
            let in_deg = graph.in_degree(u);
            proof {
                crate::model::lemma_edges_before_monotone(graph, (u + 1) as int, n as int);
                lemma_in_edges_before_monotone(graph, (u + 1) as int, n as int);
            }
            if out_deg == 0 && in_deg == 0 {
                isolated = isolated + 1;
            }
            total_out = total_out + out_deg;
            if out_deg > max_out {
                max_out = out_deg;
            }
            total_in = total_in + in_deg;
            if in_deg > max_in {
                max_in = in_deg;
            }
            u = u + 1;
        }
        (isolated, total_out, max_out, total_in, max_in)
    }
}

impl Default for TopologyAnalyzer {
    /// The same as `new`.
    fn default() -> (r: Self)
        ensures
            r == TopologyAnalyzer,
    {
        TopologyAnalyzer::new()
    }
}

/// In-degree sums of prefixes grow with the prefix.
proof fn lemma_in_edges_before_monotone(g: &DirectedGraph, a: int, b: int)
    requires
        a <= b,
    ensures
        in_edges_before(g, a) <= in_edges_before(g, b),
    decreases b - a,
{
    if a < b {
        lemma_in_edges_before_monotone(g, a, b - 1);
    }
}

/// A total over a concatenation is the sum of the totals.
proof fn lemma_ap_total_concat(a: Seq<ApEntry>, b: Seq<ApEntry>, f: spec_fn(AccessPoint) -> nat)
    ensures
        ap_total(a + b, f) == ap_total(a, f) + ap_total(b, f),
    decreases b.len(),
{
    if b.len() > 0 {
        assert((a + b).drop_last() =~= a + b.drop_last());
        lemma_ap_total_concat(a, b.drop_last(), f);
    } else {
        assert(a + b =~= a);
    }
}

/// The access points of all IEDs are those of the first `k` followed by
/// those of the rest.
proof fn lemma_all_access_points_split(ieds: Seq<IED>, k: int)
    requires
        0 <= k <= ieds.len(),
    ensures
        all_access_points(ieds) == all_access_points(ieds.take(k)) + all_access_points(ieds.skip(k)),
    decreases ieds.len() - k,
{
    if k == ieds.len() {
        assert(ieds.take(k) =~= ieds);
        assert(ieds.skip(k) =~= Seq::<IED>::empty());
        assert(all_access_points(ieds) + Seq::<ApEntry>::empty() =~= all_access_points(ieds));
    } else {
        lemma_all_access_points_split(ieds, k + 1);
        let t = ieds.take(k + 1);
        assert(t.drop_last() =~= ieds.take(k));
        assert(t.last() == ieds[k]);
        let s = ieds.skip(k);
        lemma_all_access_points_prepend(ieds[k], ieds.skip(k + 1));
        assert(s =~= seq![ieds[k]] + ieds.skip(k + 1));
    }
}

/// Putting one IED in front puts its access points in front.
proof fn lemma_all_access_points_prepend(ied: IED, rest: Seq<IED>)
    ensures
        all_access_points(seq![ied] + rest) == ied_access_points(ied) + all_access_points(rest),
    decreases rest.len(),
{
    if rest.len() == 0 {
        assert(seq![ied] + rest =~= seq![ied]);
        assert(seq![ied].drop_last() =~= Seq::<IED>::empty());
        assert(all_access_points(Seq::<IED>::empty()) == Seq::<ApEntry>::empty());
        assert(Seq::<ApEntry>::empty() + ied_access_points(ied) =~= ied_access_points(ied));
        assert(ied_access_points(ied) + Seq::<ApEntry>::empty() =~= ied_access_points(ied));
    } else {
        lemma_all_access_points_prepend(ied, rest.drop_last());
        assert((seq![ied] + rest).drop_last() =~= seq![ied] + rest.drop_last());
        assert((seq![ied] + rest).last() == rest.last());
    }
}

} // verus!
