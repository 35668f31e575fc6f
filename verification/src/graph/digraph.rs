//! Building the communication graph from a configuration model.

use vstd::prelude::*;

use crate::graph::link_order::{
    edges_are_links, in_link_order, lemma_link_order_add, lemma_link_order_empty, lemma_link_order_grow, lemma_link_order_skip,
    lemma_links_on_nodes_push, lemma_links_on_nodes_same, links_on_nodes, Link,
};
use crate::hashing::{pair_map_contents, pair_map_get};
use crate::model::{AccessPoint, DirectedGraph, GraphNode, NodeType, SCDModel, SubNetwork, VirtualTerminal, IED};

verus! {

/// A node as the builders describe it: IED name, access point name, role.
pub type NodeSpec = (Seq<char>, Seq<char>, NodeType);

/// An access point together with the name of the IED that holds it.
pub type ApEntry = (Seq<char>, AccessPoint);

/// The pair of names of a node description.
pub open spec fn spec_key(t: NodeSpec) -> (Seq<char>, Seq<char>) {
    (t.0, t.1)
}

/// The access points of one IED, each with the IED's name.
pub open spec fn ied_access_points(ied: IED) -> Seq<ApEntry> {
    ied.access_points@.map_values(|ap: AccessPoint| (ied.name@, ap))
}

/// The access points of all IEDs, IED by IED.
pub open spec fn all_access_points(ieds: Seq<IED>) -> Seq<ApEntry>
    decreases ieds.len(),
{
    if ieds.len() == 0 {
        Seq::empty()
    } else {
        all_access_points(ieds.drop_last()) + ied_access_points(ieds.last())
    }
}

/// The access point publishes something.
pub open spec fn publishes(ap: AccessPoint) -> bool {
    ap.goose_pubs@.len() > 0 || ap.sv_pubs@.len() > 0
}

/// The access point subscribes to something.
pub open spec fn subscribes(ap: AccessPoint) -> bool {
    ap.goose_subs@.len() > 0 || ap.sv_subs@.len() > 0
}

/// The role of an access point in the signal graph: one that both publishes
/// and subscribes, or does neither, counts as an IED.
pub open spec fn signal_role(ap: AccessPoint) -> NodeType {
    if publishes(ap) && subscribes(ap) {
        NodeType::IED
    } else if publishes(ap) {
        NodeType::Publisher
    } else if subscribes(ap) {
        NodeType::Subscriber
    } else {
        NodeType::IED
    }
}

/// The role of an access point in the layered graph: publishing wins.
pub open spec fn layered_role(ap: AccessPoint) -> NodeType {
    if publishes(ap) {
        NodeType::Publisher
    } else if subscribes(ap) {
        NodeType::Subscriber
    } else {
        NodeType::IED
    }
}

/// In the signal graph an access point is a subscriber exactly when it has
/// a GOOSE or SV subscription and no publication, a publisher exactly when it
/// has a publication and no subscription, and an IED otherwise (both, or
/// neither).
pub proof fn lemma_signal_role(ap: AccessPoint)
    ensures
        (signal_role(ap) == NodeType::Subscriber) <==> (ap.goose_subs@.len() + ap.sv_subs@.len() > 0
            && ap.goose_pubs@.len() + ap.sv_pubs@.len() == 0),
        (signal_role(ap) == NodeType::Publisher) <==> (ap.goose_pubs@.len() + ap.sv_pubs@.len() > 0
            && ap.goose_subs@.len() + ap.sv_subs@.len() == 0),
        (signal_role(ap) == NodeType::IED) <==> ((ap.goose_pubs@.len() + ap.sv_pubs@.len() > 0)
            == (ap.goose_subs@.len() + ap.sv_subs@.len() > 0)),
        signal_role(ap) != NodeType::Switch,
{
}

/// In the layered graph an access point is a publisher exactly when it has
/// a publication, a subscriber exactly when it has a subscription and no
/// publication, and an IED when it has neither.
pub proof fn lemma_layered_role(ap: AccessPoint)
    ensures
        (layered_role(ap) == NodeType::Publisher) <==> ap.goose_pubs@.len() + ap.sv_pubs@.len() > 0,
        (layered_role(ap) == NodeType::Subscriber) <==> (ap.goose_subs@.len() + ap.sv_subs@.len() > 0
            && ap.goose_pubs@.len() + ap.sv_pubs@.len() == 0),
        (layered_role(ap) == NodeType::IED) <==> (ap.goose_subs@.len() + ap.sv_subs@.len() == 0
            && ap.goose_pubs@.len() + ap.sv_pubs@.len() == 0),
        layered_role(ap) != NodeType::Switch,
{
}

/// Whether some node description has the key `k`.
pub open spec fn has_key(ns: Seq<NodeSpec>, k: (Seq<char>, Seq<char>)) -> bool {
    exists|i: int| 0 <= i < ns.len() && spec_key(#[trigger] ns[i]) == k
}

/// Adds a node description unless one with the same key is there.
pub open spec fn add_spec_node(ns: Seq<NodeSpec>, t: NodeSpec) -> Seq<NodeSpec> {
    if has_key(ns, spec_key(t)) { ns } else { ns.push(t) }
}

/// One node per distinct (IED, access point) pair, in order of first
/// occurrence, with the role of that first occurrence.
pub open spec fn ap_nodes(start: Seq<NodeSpec>, entries: Seq<ApEntry>, role: spec_fn(AccessPoint) -> NodeType) -> Seq<NodeSpec>
    decreases entries.len(),
{
    if entries.len() == 0 {
        start
    } else {
        let e = entries.last();
        add_spec_node(ap_nodes(start, entries.drop_last(), role), (e.0, e.1.name@, role(e.1)))
    }
}

/// The (publisher key, subscriber key) pairs that one access point's
/// subscriptions ask for, GOOSE first, then SV.
pub open spec fn ap_links(e: ApEntry) -> Seq<((Seq<char>, Seq<char>), (Seq<char>, Seq<char>))> {
    (e.1.goose_subs@ + e.1.sv_subs@).map_values(|vt: VirtualTerminal| ((vt.ied_name@, vt.ap_name@), (e.0, e.1.name@)))
}

/// The (publisher key, subscriber key) pairs of the terminals `subs` of the
/// subscriber with key `sk`.
pub open spec fn vt_links(subs: Seq<VirtualTerminal>, sk: (Seq<char>, Seq<char>)) -> Seq<Link> {
    subs.map_values(|vt: VirtualTerminal| ((vt.ied_name@, vt.ap_name@), sk))
}

/// The subscription pairs of all access points.
pub open spec fn all_links(entries: Seq<ApEntry>) -> Seq<((Seq<char>, Seq<char>), (Seq<char>, Seq<char>))>
    decreases entries.len(),
{
    if entries.len() == 0 {
        Seq::empty()
    } else {
        all_links(entries.drop_last()) + ap_links(entries.last())
    }
}

/// The graph's nodes are the node descriptions `ns`, in order, each with its
/// own position as index.
pub open spec fn nodes_match(g: &DirectedGraph, ns: Seq<NodeSpec>) -> bool {
    &&& g.n() == ns.len()
    &&& forall|i: int| 0 <= i < ns.len() ==> #[trigger] g.nodes@[i].key() == spec_key(ns[i])
        && g.nodes@[i].node_type == ns[i].2 && g.nodes@[i].index == i
}

/// The name that marks a switch node in place of an access point name.
pub open spec fn switch_label() -> Seq<char> {
    "SWITCH"@
}

/// One switch node per distinct subnetwork name, in order of first occurrence.
pub open spec fn switch_nodes(subnets: Seq<SubNetwork>) -> Seq<NodeSpec>
    decreases subnets.len(),
{
    if subnets.len() == 0 {
        Seq::empty()
    } else {
        add_spec_node(switch_nodes(subnets.drop_last()), (subnets.last().name@, switch_label(), NodeType::Switch))
    }
}

/// Subnetwork `s` lists the (IED, access point) pair `k`.
pub open spec fn lists(s: SubNetwork, k: (Seq<char>, Seq<char>)) -> bool {
    exists|i: int| 0 <= i < s.access_points@.len()
        && (#[trigger] s.access_points@[i]).0@ == k.0 && s.access_points@[i].1@ == k.1
}

/// The access point with key `k` is one of `entries` and is listed by a
/// subnetwork whose switch has key `sw`.
pub open spec fn attached(entries: Seq<ApEntry>, subnets: Seq<SubNetwork>, k: (Seq<char>, Seq<char>), sw: (Seq<char>, Seq<char>)) -> bool {
    &&& exists|a: int| 0 <= a < entries.len() && (#[trigger] entries[a]).0 == k.0 && entries[a].1.name@ == k.1
    &&& exists|b: int| 0 <= b < subnets.len() && (#[trigger] subnets[b]).name@ == sw.0 && sw.1 == switch_label()
        && lists(subnets[b], k)
}

/// Some subnetwork among `subnets` lists `k` and has the switch key `sw`.
pub open spec fn switch_of(subnets: Seq<SubNetwork>, k: (Seq<char>, Seq<char>), sw: (Seq<char>, Seq<char>)) -> bool {
    exists|b: int| 0 <= b < subnets.len() && (#[trigger] subnets[b]).name@ == sw.0 && sw.1 == switch_label()
        && lists(subnets[b], k)
}

/// Subnetwork `s` lists `k` among its first `q` pairs.
pub open spec fn lists_before(s: SubNetwork, k: (Seq<char>, Seq<char>), q: int) -> bool {
    exists|i: int| 0 <= i < q && (#[trigger] s.access_points@[i]).0@ == k.0 && s.access_points@[i].1@ == k.1
}

/// The links that attaching the node with key `k` to the switch with key
/// `sw` meets over the listed pairs `pairs`: to the switch and back for each
/// listing of `k`.
pub open spec fn listing_links(pairs: Seq<(String, String)>, k: (Seq<char>, Seq<char>), sw: (Seq<char>, Seq<char>)) -> Seq<Link>
    decreases pairs.len(),
{
    if pairs.len() == 0 {
        Seq::empty()
    } else {
        let p = pairs.last();
        listing_links(pairs.drop_last(), k, sw) + if p.0@ == k.0 && p.1@ == k.1 { seq![(k, sw), (sw, k)] } else { Seq::empty() }
    }
}

/// The links that attaching the node with key `k` meets, subnetwork by
/// subnetwork.
pub open spec fn switch_links(subnets: Seq<SubNetwork>, k: (Seq<char>, Seq<char>)) -> Seq<Link>
    decreases subnets.len(),
{
    if subnets.len() == 0 {
        Seq::empty()
    } else {
        switch_links(subnets.drop_last(), k) + listing_links(subnets.last().access_points@, k, (subnets.last().name@, switch_label()))
    }
}

/// The links of the layered graph, access point by access point.
pub open spec fn layered_links(entries: Seq<ApEntry>, subnets: Seq<SubNetwork>) -> Seq<Link>
    decreases entries.len(),
{
    if entries.len() == 0 {
        Seq::empty()
    } else {
        layered_links(entries.drop_last(), subnets) + switch_links(subnets, (entries.last().0, entries.last().1.name@))
    }
}

/// Builds the communication graphs.
pub struct GraphBuilder;

impl GraphBuilder {
    /// A builder; it holds no state.
    pub fn new() -> Self {
        GraphBuilder
    }

    /// The signal graph: one node per (IED, access point) pair, and an edge
    /// from a publisher to each access point that subscribes to it.
    pub fn build_from_scd(model: &SCDModel) -> (g: DirectedGraph)
        ensures
            g.wf(),
            nodes_match(&g, ap_nodes(Seq::empty(), all_access_points(model.ieds@), |ap: AccessPoint| signal_role(ap))),
            forall|u: int, v: int| #[trigger] g.edge(u, v) <==> 0 <= u < g.n() && 0 <= v < g.n()
                && exists|k: int| 0 <= k < all_links(all_access_points(model.ieds@)).len()
                    && #[trigger] all_links(all_access_points(model.ieds@))[k]
                        == (g.nodes@[u].key(), g.nodes@[v].key()),
            in_link_order(&g, all_links(all_access_points(model.ieds@))),
    {
        let mut graph = DirectedGraph::new();
        let ghost role = |ap: AccessPoint| signal_role(ap);
        let ghost entries = all_access_points(model.ieds@);
        let mut i: usize = 0;
        proof { assert(model.ieds@.take(0) =~= Seq::<IED>::empty()); }
        while i < model.ieds.len()
            invariant
                i <= model.ieds@.len(),
                graph.wf(),
                nodes_match(&graph, ap_nodes(Seq::empty(), all_access_points(model.ieds@.take(i as int)), role)),
                forall|u: int, v: int| !#[trigger] graph.edge(u, v),
                role == |ap: AccessPoint| signal_role(ap),
            decreases model.ieds@.len() - i,
        {
            let ied = &model.ieds[i];
            let mut j: usize = 0;
            let ghost before = all_access_points(model.ieds@.take(i as int));
            proof {
                assert(ied_access_points(*ied).take(0) =~= Seq::<ApEntry>::empty());
                assert(before + ied_access_points(*ied).take(0) =~= before);
            }
            while j < ied.access_points.len()
                invariant
                    i < model.ieds@.len(),
                    *ied == model.ieds@[i as int],
                    j <= ied.access_points@.len(),
                    graph.wf(),
                    before == all_access_points(model.ieds@.take(i as int)),
                    nodes_match(&graph, ap_nodes(Seq::empty(), before + ied_access_points(*ied).take(j as int), role)),
                    forall|u: int, v: int| !#[trigger] graph.edge(u, v),
                    role == |ap: AccessPoint| signal_role(ap),
                decreases ied.access_points@.len() - j,
            {
                let ap = &ied.access_points[j];
                let has_pubs = ap.goose_pubs.len() > 0 || ap.sv_pubs.len() > 0;
                let has_subs = ap.goose_subs.len() > 0 || ap.sv_subs.len() > 0;
                let node_type = if has_pubs && has_subs {
                    NodeType::IED
                } else if has_pubs {
                    NodeType::Publisher
                } else if has_subs {
                    NodeType::Subscriber
                } else {
                    NodeType::IED
                };
                proof {
                    assert(node_type == signal_role(*ap));
                    let prev = before + ied_access_points(*ied).take(j as int);
                    let next = before + ied_access_points(*ied).take(j + 1);
                    assert(ied_access_points(*ied)[j as int] == (ied.name@, *ap));
                    assert(next =~= prev.push((ied.name@, *ap)));
                    assert(next.drop_last() =~= prev);
                }
                let ghost g0 = graph;
                Self::place_node(&mut graph, &ied.name, &ap.name, node_type,
                    Ghost(ap_nodes(Seq::empty(), before + ied_access_points(*ied).take(j as int), role)));
                proof {
                    assert forall|u: int, v: int| !#[trigger] graph.edge(u, v) by {
                        assert(!g0.edge(u, v));
                    }
                }
                j = j + 1;
            }
            proof {
                assert(ied_access_points(*ied).take(j as int) =~= ied_access_points(*ied));
                assert(model.ieds@.take(i + 1).drop_last() =~= model.ieds@.take(i as int));
                assert(model.ieds@.take(i + 1).last() == *ied);
                assert(all_access_points(model.ieds@.take(i + 1)) == before + ied_access_points(*ied));
            }
            i = i + 1;
        }
        proof {
            assert(model.ieds@.take(i as int) =~= model.ieds@);
        }
        let ghost ns = ap_nodes(Seq::empty(), entries, role);
        let mut i: usize = 0;
        proof {
            assert(model.ieds@.take(0) =~= Seq::<IED>::empty());
            lemma_link_order_empty(&graph);
            assert(all_links(all_access_points(model.ieds@.take(0))) =~= Seq::<Link>::empty());
            assert(graph.nodes@.len() == graph.nodes.len());
        }
        while i < model.ieds.len()
            invariant
                i <= model.ieds@.len(),
                graph.wf(),
                entries == all_access_points(model.ieds@),
                ns == ap_nodes(Seq::empty(), entries, role),
                role == |ap: AccessPoint| signal_role(ap),
                nodes_match(&graph, ns),
                graph.n() <= usize::MAX,
                edges_are_links(&graph, all_links(all_access_points(model.ieds@.take(i as int)))),
                in_link_order(&graph, all_links(all_access_points(model.ieds@.take(i as int)))),
                forall|u: int, v: int| #[trigger] graph.edge(u, v) <==> 0 <= u < graph.n() && 0 <= v < graph.n()
                    && exists|k: int| 0 <= k < all_links(all_access_points(model.ieds@.take(i as int))).len()
                        && #[trigger] all_links(all_access_points(model.ieds@.take(i as int)))[k]
                            == (graph.nodes@[u].key(), graph.nodes@[v].key()),
            decreases model.ieds@.len() - i,
        {
            let ied = &model.ieds[i];
            let ghost before = all_access_points(model.ieds@.take(i as int));
            let mut j: usize = 0;
            proof {
                assert(ied_access_points(*ied).take(0) =~= Seq::<ApEntry>::empty());
                assert(before + ied_access_points(*ied).take(0) =~= before);
            }
            while j < ied.access_points.len()
                invariant
                    i < model.ieds@.len(),
                    *ied == model.ieds@[i as int],
                    j <= ied.access_points@.len(),
                    graph.wf(),
                    entries == all_access_points(model.ieds@),
                    ns == ap_nodes(Seq::empty(), entries, role),
                    role == |ap: AccessPoint| signal_role(ap),
                    nodes_match(&graph, ns),
                    before == all_access_points(model.ieds@.take(i as int)),
                    graph.n() <= usize::MAX,
                    edges_are_links(&graph, all_links(before + ied_access_points(*ied).take(j as int))),
                    in_link_order(&graph, all_links(before + ied_access_points(*ied).take(j as int))),
                    forall|u: int, v: int| #[trigger] graph.edge(u, v) <==> 0 <= u < graph.n() && 0 <= v < graph.n()
                        && exists|k: int| 0 <= k < all_links(before + ied_access_points(*ied).take(j as int)).len()
                            && #[trigger] all_links(before + ied_access_points(*ied).take(j as int))[k]
                                == (graph.nodes@[u].key(), graph.nodes@[v].key()),
                decreases ied.access_points@.len() - j,
            {
                let ap = &ied.access_points[j];
                let ghost prev = before + ied_access_points(*ied).take(j as int);
                let ghost next = before + ied_access_points(*ied).take(j + 1);
                proof {
                    assert(ied_access_points(*ied)[j as int] == (ied.name@, *ap));
                    assert(next =~= prev.push((ied.name@, *ap)));
                    assert(next.drop_last() =~= prev);
                    lemma_entry_in_prefix(model.ieds@, i as int, j as int);
                    lemma_ap_nodes_cover(Seq::empty(), entries, role, (ied.name@, *ap));
                }
                if let Some(sub_idx) = pair_map_get(&graph.node_map, &ied.name, &ap.name) {
                    let ghost g0 = graph;
                    let ghost sk = graph.nodes@[sub_idx as int].key();
                    Self::link_subscribers(&mut graph, sub_idx, &ap.goose_subs, Ghost(all_links(prev)));
                    let ghost g1 = graph;
                    Self::link_subscribers(&mut graph, sub_idx, &ap.sv_subs,
                        Ghost(all_links(prev) + vt_links(ap.goose_subs@, sk)));
                    proof {
                        let links = ap_links((ied.name@, *ap));
                        assert(sk == (ied.name@, ap.name@));
                        assert(links =~= vt_links(ap.goose_subs@, sk) + vt_links(ap.sv_subs@, sk));
                        assert(all_links(prev) + vt_links(ap.goose_subs@, sk) + vt_links(ap.sv_subs@, sk)
                            =~= all_links(prev) + links);
                        assert(all_links(next) =~= all_links(prev) + links);
                        assert forall|u: int, v: int| #[trigger] graph.edge(u, v) <==> 0 <= u < graph.n() && 0 <= v < graph.n()
                            && exists|k: int| 0 <= k < all_links(next).len()
                                && #[trigger] all_links(next)[k] == (graph.nodes@[u].key(), graph.nodes@[v].key()) by {
                            lemma_links_split(all_links(prev), links, (graph.nodes@[u].key(), graph.nodes@[v].key()));
                            if 0 <= u < graph.n() && 0 <= v < graph.n() {
                                let pk = graph.nodes@[u].key();
                                let sk = graph.nodes@[v].key();
                                assert(g0.edge(u, v) <==> exists|k: int| 0 <= k < all_links(prev).len()
                                    && #[trigger] all_links(prev)[k] == (pk, sk));
                                lemma_ap_links(ied.name@, *ap, pk, sk);
                                if v == sub_idx {
                                    assert(sk == (ied.name@, ap.name@));
                                } else {
                                    assert(sk != (ied.name@, ap.name@)) by {
                                        assert(graph.nodes@[sub_idx as int].key() == (ied.name@, ap.name@));
                                    }
                                }
                            }
                        }
                    }
                } else {
                    proof {
                        let k = (ied.name@, ap.name@);
                        let q = choose|q: int| 0 <= q < ns.len() && spec_key(#[trigger] ns[q]) == k;
                        assert(graph.nodes@[q].key() == k);
                    }
                }
                j = j + 1;
            }
            proof {
                assert(ied_access_points(*ied).take(j as int) =~= ied_access_points(*ied));
                assert(model.ieds@.take(i + 1).drop_last() =~= model.ieds@.take(i as int));
                assert(model.ieds@.take(i + 1).last() == *ied);
                assert(all_access_points(model.ieds@.take(i + 1)) == before + ied_access_points(*ied));
            }
            i = i + 1;
        }
        proof {
            assert(model.ieds@.take(i as int) =~= model.ieds@);
        }
        graph
    }


    /// The layered graph: a switch node per subnetwork, a node per (IED,
    /// access point) pair, and edges both ways between each access point and
    /// the switch of each subnetwork that lists it.
    pub fn build_multilayer_graph(model: &SCDModel) -> (g: DirectedGraph)
        ensures
            g.wf(),
            nodes_match(&g, ap_nodes(switch_nodes(model.sub_networks@), all_access_points(model.ieds@),
                |ap: AccessPoint| layered_role(ap))),
            forall|u: int, v: int| #[trigger] g.edge(u, v) <==> 0 <= u < g.n() && 0 <= v < g.n()
                && (attached(all_access_points(model.ieds@), model.sub_networks@, g.nodes@[u].key(), g.nodes@[v].key())
                    || attached(all_access_points(model.ieds@), model.sub_networks@, g.nodes@[v].key(), g.nodes@[u].key())),
            in_link_order(&g, layered_links(all_access_points(model.ieds@), model.sub_networks@)),
    {
        let mut graph = DirectedGraph::new();
        let ghost role = |ap: AccessPoint| layered_role(ap);
        let ghost subnets = model.sub_networks@;
        let mut s: usize = 0;
        proof { assert(subnets.take(0) =~= Seq::<SubNetwork>::empty()); }
        while s < model.sub_networks.len()
            invariant
                subnets == model.sub_networks@,
                s <= subnets.len(),
                graph.wf(),
                nodes_match(&graph, switch_nodes(subnets.take(s as int))),
                forall|u: int, v: int| !#[trigger] graph.edge(u, v),
            decreases subnets.len() - s,
        {
            let label = String::from_str("SWITCH");
            proof {
                assert(subnets.take(s + 1).drop_last() =~= subnets.take(s as int));
                assert(subnets.take(s + 1).last() == subnets[s as int]);
            }
            let ghost g0 = graph;
            Self::place_node(&mut graph, &model.sub_networks[s].name, &label, NodeType::Switch,
                Ghost(switch_nodes(subnets.take(s as int))));
            proof {
                assert forall|u: int, v: int| !#[trigger] graph.edge(u, v) by {
                    assert(!g0.edge(u, v));
                }
            }
            s = s + 1;
        }
        proof { assert(subnets.take(s as int) =~= subnets); }
        let ghost sw = switch_nodes(subnets);
        let mut i: usize = 0;
        proof {
            assert(model.ieds@.take(0) =~= Seq::<IED>::empty());
            lemma_link_order_empty(&graph);
            assert(layered_links(all_access_points(model.ieds@.take(0)), subnets) =~= Seq::<Link>::empty());
        }
        while i < model.ieds.len()
            invariant
                subnets == model.sub_networks@,
                sw == switch_nodes(subnets),
                role == |ap: AccessPoint| layered_role(ap),
                i <= model.ieds@.len(),
                graph.wf(),
                nodes_match(&graph, ap_nodes(sw, all_access_points(model.ieds@.take(i as int)), role)),
                edges_are_links(&graph, layered_links(all_access_points(model.ieds@.take(i as int)), subnets)),
                in_link_order(&graph, layered_links(all_access_points(model.ieds@.take(i as int)), subnets)),
                links_on_nodes(&graph, layered_links(all_access_points(model.ieds@.take(i as int)), subnets)),
                forall|u: int, v: int| #[trigger] graph.edge(u, v) <==> 0 <= u < graph.n() && 0 <= v < graph.n()
                    && (attached(all_access_points(model.ieds@.take(i as int)), subnets, graph.nodes@[u].key(), graph.nodes@[v].key())
                        || attached(all_access_points(model.ieds@.take(i as int)), subnets, graph.nodes@[v].key(), graph.nodes@[u].key())),
            decreases model.ieds@.len() - i,
        {
            let ied = &model.ieds[i];
            let ghost before = all_access_points(model.ieds@.take(i as int));
            let mut j: usize = 0;
            proof {
                assert(ied_access_points(*ied).take(0) =~= Seq::<ApEntry>::empty());
                assert(before + ied_access_points(*ied).take(0) =~= before);
            }
            while j < ied.access_points.len()
                invariant
                    subnets == model.sub_networks@,
                    sw == switch_nodes(subnets),
                    role == |ap: AccessPoint| layered_role(ap),
                    i < model.ieds@.len(),
                    *ied == model.ieds@[i as int],
                    j <= ied.access_points@.len(),
                    before == all_access_points(model.ieds@.take(i as int)),
                    graph.wf(),
                    nodes_match(&graph, ap_nodes(sw, before + ied_access_points(*ied).take(j as int), role)),
                    edges_are_links(&graph, layered_links(before + ied_access_points(*ied).take(j as int), subnets)),
                    in_link_order(&graph, layered_links(before + ied_access_points(*ied).take(j as int), subnets)),
                    links_on_nodes(&graph, layered_links(before + ied_access_points(*ied).take(j as int), subnets)),
                    forall|u: int, v: int| #[trigger] graph.edge(u, v) <==> 0 <= u < graph.n() && 0 <= v < graph.n()
                        && (attached(before + ied_access_points(*ied).take(j as int), subnets, graph.nodes@[u].key(), graph.nodes@[v].key())
                            || attached(before + ied_access_points(*ied).take(j as int), subnets, graph.nodes@[v].key(), graph.nodes@[u].key())),
                decreases ied.access_points@.len() - j,
            {
                let ap = &ied.access_points[j];
                let has_pubs = ap.goose_pubs.len() > 0 || ap.sv_pubs.len() > 0;
                let has_subs = ap.goose_subs.len() > 0 || ap.sv_subs.len() > 0;
                let node_type = if has_pubs {
                    NodeType::Publisher
                } else if has_subs {
                    NodeType::Subscriber
                } else {
                    NodeType::IED
                };
                let ghost prev = before + ied_access_points(*ied).take(j as int);
                let ghost next = before + ied_access_points(*ied).take(j + 1);
                proof {
                    assert(node_type == layered_role(*ap));
                    assert(ied_access_points(*ied)[j as int] == (ied.name@, *ap));
                    assert(next =~= prev.push((ied.name@, *ap)));
                    assert(next.drop_last() =~= prev);
                }
                let ghost g0 = graph;
                proof { assert(graph.nodes@.len() == graph.nodes.len()); }
                let node_idx = Self::place_node(&mut graph, &ied.name, &ap.name, node_type, Ghost(ap_nodes(sw, prev, role)));
                proof {
                    if graph.n() > g0.n() {
                        lemma_link_order_grow(&g0, &graph, layered_links(prev, subnets));
                    }
                }
                proof {
                    let t: NodeSpec = (ied.name@, ap.name@, node_type);
                    assert(next.last() == (ied.name@, *ap));
                    assert(role(*ap) == node_type);
                    assert(ap_nodes(sw, next, role) == add_spec_node(ap_nodes(sw, prev, role), t));
                    if graph.n() > g0.n() {
                        assert(!has_key(ap_nodes(sw, prev, role), (ied.name@, ap.name@)));
                        assert(add_spec_node(ap_nodes(sw, prev, role), t) == ap_nodes(sw, prev, role).push(t));
                        assert(graph.nodes@[g0.n()].key() == spec_key(ap_nodes(sw, prev, role).push(t)[g0.n()]));
                        assert(graph.nodes@[g0.n()].key() == (ied.name@, ap.name@));
                        lemma_new_key_unattached(sw, prev, subnets, role, (ied.name@, ap.name@));
                    }
                    assert forall|u: int, v: int| #[trigger] graph.edge(u, v) <==> 0 <= u < graph.n() && 0 <= v < graph.n()
                        && (attached(prev, subnets, graph.nodes@[u].key(), graph.nodes@[v].key())
                            || attached(prev, subnets, graph.nodes@[v].key(), graph.nodes@[u].key())) by {
                        if g0.n() < graph.n() && (u == g0.n() || v == g0.n()) {
                            assert(!attached(prev, subnets, graph.nodes@[u].key(), graph.nodes@[v].key()));
                            assert(!attached(prev, subnets, graph.nodes@[v].key(), graph.nodes@[u].key()));
                            assert(!g0.edge(u, v));
                        }
                        if 0 <= u < g0.n() { assert(graph.nodes@[u] == g0.nodes@[u]); }
                        if 0 <= v < g0.n() { assert(graph.nodes@[v] == g0.nodes@[v]); }
                    }
                }
                proof {
                    assert(next[next.len() - 1] == (ied.name@, *ap));
                    lemma_ap_nodes_cover(sw, next, role, (ied.name@, *ap));
                    lemma_switches_present(&graph, sw, next, subnets, role);
                }
                assert(nodes_match(&graph, ap_nodes(sw, next, role)));
                let ghost g1 = graph;
                proof { assert(graph.nodes@.len() == graph.nodes.len()); }
                Self::attach_to_switches(&mut graph, node_idx, &ied.name, &ap.name, &model.sub_networks,
                    Ghost(layered_links(prev, subnets)));
                proof {
                    assert(next.drop_last() =~= prev);
                    assert(layered_links(next, subnets) == layered_links(prev, subnets) + switch_links(subnets, (ied.name@, ap.name@)));
                }
                proof {
                    lemma_nodes_match_same(&g1, &graph, ap_nodes(sw, next, role));
                    assert forall|u: int, v: int| #[trigger] graph.edge(u, v) <==> 0 <= u < graph.n() && 0 <= v < graph.n()
                        && (attached(next, subnets, graph.nodes@[u].key(), graph.nodes@[v].key())
                            || attached(next, subnets, graph.nodes@[v].key(), graph.nodes@[u].key())) by {
                        lemma_attached_push(prev, (ied.name@, *ap), subnets, graph.nodes@[u].key(), graph.nodes@[v].key());
                        lemma_attached_push(prev, (ied.name@, *ap), subnets, graph.nodes@[v].key(), graph.nodes@[u].key());
                        if 0 <= u < graph.n() && 0 <= v < graph.n() {
                            assert(g1.nodes@[u] == graph.nodes@[u] && g1.nodes@[v] == graph.nodes@[v]);
                        }
                    }
                }
                j = j + 1;
            }
            proof {
                assert(ied_access_points(*ied).take(j as int) =~= ied_access_points(*ied));
                assert(model.ieds@.take(i + 1).drop_last() =~= model.ieds@.take(i as int));
                assert(model.ieds@.take(i + 1).last() == *ied);
                assert(all_access_points(model.ieds@.take(i + 1)) == before + ied_access_points(*ied));
            }
            i = i + 1;
        }
        proof { assert(model.ieds@.take(i as int) =~= model.ieds@); }
        graph
    }

    /// Adds a node for the pair of names unless there is one, keeping the
    /// node list equal to the descriptions with this one added.
    fn place_node(graph: &mut DirectedGraph, ied: &String, ap: &String, node_type: NodeType, Ghost(ns): Ghost<Seq<NodeSpec>>) -> (idx: usize)
        requires
            old(graph).wf(),
            nodes_match(old(graph), ns),
        ensures
            final(graph).wf(),
            nodes_match(final(graph), add_spec_node(ns, (ied@, ap@, node_type))),
            forall|u: int, v: int| #[trigger] final(graph).edge(u, v) <==> old(graph).edge(u, v),
            forall|u: int| 0 <= u < old(graph).n() ==> #[trigger] final(graph).nodes@[u] == old(graph).nodes@[u],
            final(graph).n() == old(graph).n() || final(graph).n() == old(graph).n() + 1,
            final(graph).n() == old(graph).n() + 1 ==> !has_key(ns, (ied@, ap@)),
            final(graph).n() == old(graph).n() ==> *final(graph) == *old(graph),
            final(graph).n() == old(graph).n() + 1 ==> {
                &&& forall|u: int| 0 <= u < old(graph).n() ==> #[trigger] final(graph).adj(u) == old(graph).adj(u)
                &&& forall|u: int| 0 <= u < old(graph).n() ==> #[trigger] final(graph).radj(u) == old(graph).radj(u)
                &&& final(graph).adj(old(graph).n()) == Seq::<usize>::empty()
                &&& final(graph).radj(old(graph).n()) == Seq::<usize>::empty()
            },
            idx < final(graph).n(),
            final(graph).nodes@[idx as int].key() == (ied@, ap@),
    {
        let idx = graph.node_count();
        let node = GraphNode { index: idx, ied_name: ied.clone(), ap_name: ap.clone(), node_type };
        let ghost g0 = *graph;
        let ghost nd = node;
        assert(nd.key() == (ied@, ap@));
        let r = graph.add_node(node);
        proof {
            let t: NodeSpec = (ied@, ap@, node_type);
            if has_key(ns, spec_key(t)) {
                let i = choose|i: int| 0 <= i < ns.len() && spec_key(#[trigger] ns[i]) == spec_key(t);
                assert(g0.nodes@[i].key() == spec_key(t));
                assert(g0.find(spec_key(t)) is Some);
                assert(g0.find(nd.key()) is Some);
                assert(*graph == g0);
                assert(add_spec_node(ns, t) == ns);
                assert(nodes_match(&*graph, add_spec_node(ns, t)));
            } else {
                assert(g0.find(spec_key(t)) is None) by {
                    if g0.find(spec_key(t)) is Some {
                        let i = g0.find(spec_key(t))->0 as int;
                        assert(g0.nodes@[i].key() == spec_key(t));
                        assert(spec_key(ns[i]) == spec_key(t));
                    }
                }
                let gg = *graph;
                let nt = ns.push(t);
                assert forall|i: int| 0 <= i < nt.len() implies #[trigger] gg.nodes@[i] == if i < ns.len() { g0.nodes@[i] } else { nd } by {}
                assert forall|i: int| 0 <= i < nt.len() implies #[trigger] nt[i] == if i < ns.len() { ns[i] } else { t } by {}
                assert forall|i: int| 0 <= i < nt.len() implies (#[trigger] gg.nodes@[i]).index == i by {
                    if i < ns.len() { assert(g0.nodes@[i].key() == spec_key(ns[i])); }
                }
                assert forall|i: int| 0 <= i < nt.len() implies (#[trigger] gg.nodes@[i]).key() == spec_key(nt[i]) by {
                    if i < ns.len() { assert(g0.nodes@[i].key() == spec_key(ns[i])); }
                }
                assert forall|i: int| 0 <= i < nt.len() implies (#[trigger] gg.nodes@[i]).node_type == nt[i].2 by {
                    if i < ns.len() { assert(g0.nodes@[i].key() == spec_key(ns[i])); }
                }
                assert(add_spec_node(ns, t) == nt);
                assert(gg.n() == nt.len());
                lemma_nodes_match_intro(&gg, nt);
                assert(nodes_match(&gg, add_spec_node(ns, t)));
            }
            assert forall|u: int, v: int| #[trigger] graph.edge(u, v) <==> g0.edge(u, v) by {
                if graph.edge(u, v) {
                    if u < g0.n() {
                        assert(graph.adj(u) == g0.adj(u));
                        if v >= g0.n() {
                            assert(g0.adj(u).contains(v as usize));
                            let k = choose|k: int| 0 <= k < g0.adj(u).len() && g0.adj(u)[k] == v as usize;
                            assert(g0.adj(u)[k] < g0.n());
                        }
                    } else {
                        assert(graph.adj(u).len() == 0);
                    }
                }
                if g0.edge(u, v) {
                    assert(graph.adj(u) == g0.adj(u));
                }
            }
        }
        r
    }

    /// Adds edges both ways between `node_idx` and the switch of each
    /// subnetwork that lists the pair (`ied`, `ap`).
    fn attach_to_switches(graph: &mut DirectedGraph, node_idx: usize, ied: &String, ap: &String, subnets: &Vec<SubNetwork>,
        Ghost(links): Ghost<Seq<Link>>)
        requires
            old(graph).wf(),
            node_idx < old(graph).n(),
            old(graph).n() <= usize::MAX,
            old(graph).nodes@[node_idx as int].key() == (ied@, ap@),
            forall|b: int| 0 <= b < subnets@.len() ==> (#[trigger] old(graph).find((subnets@[b].name@, switch_label()))) is Some,
            edges_are_links(old(graph), links),
            in_link_order(old(graph), links),
            links_on_nodes(old(graph), links),
        ensures
            edges_are_links(final(graph), links + switch_links(subnets@, (ied@, ap@))),
            in_link_order(final(graph), links + switch_links(subnets@, (ied@, ap@))),
            links_on_nodes(final(graph), links + switch_links(subnets@, (ied@, ap@))),
            final(graph).wf(),
            final(graph).nodes@ == old(graph).nodes@,
            final(graph).node_map == old(graph).node_map,
            forall|u: int, v: int| #[trigger] final(graph).edge(u, v) <==> (old(graph).edge(u, v)
                || (u == node_idx && 0 <= v < old(graph).n() && switch_of(subnets@, (ied@, ap@), old(graph).nodes@[v].key()))
                || (v == node_idx && 0 <= u < old(graph).n() && switch_of(subnets@, (ied@, ap@), old(graph).nodes@[u].key()))),
    {
        let ghost g0 = *graph;
        let ghost key = (ied@, ap@);
        let label = String::from_str("SWITCH");
        let mut b: usize = 0;
        proof { assert(links + switch_links(subnets@.take(0), key) =~= links); }
        while b < subnets.len()
            invariant
                g0.wf(),
                graph.wf(),
                graph.nodes@ == g0.nodes@,
                graph.node_map == g0.node_map,
                node_idx < g0.n(),
                label@ == switch_label(),
                b <= subnets@.len(),
                key == (ied@, ap@),
                g0.n() <= usize::MAX,
                g0.nodes@[node_idx as int].key() == key,
                edges_are_links(graph, links + switch_links(subnets@.take(b as int), key)),
                in_link_order(graph, links + switch_links(subnets@.take(b as int), key)),
                links_on_nodes(graph, links + switch_links(subnets@.take(b as int), key)),
                forall|c: int| 0 <= c < subnets@.len() ==> (#[trigger] g0.find((subnets@[c].name@, switch_label()))) is Some,
                forall|u: int, v: int| #[trigger] graph.edge(u, v) <==> (g0.edge(u, v)
                    || (u == node_idx && 0 <= v < g0.n() && switch_of(subnets@.take(b as int), (ied@, ap@), g0.nodes@[v].key()))
                    || (v == node_idx && 0 <= u < g0.n() && switch_of(subnets@.take(b as int), (ied@, ap@), g0.nodes@[u].key()))),
            decreases subnets@.len() - b,
        {
            let sub = &subnets[b];
            let ghost swk = (sub.name@, switch_label());
            let ghost lb = links + switch_links(subnets@.take(b as int), key);
            let mut q: usize = 0;
            proof { assert(lb + listing_links(sub.access_points@.take(0), key, swk) =~= lb); }
            while q < sub.access_points.len()
                invariant
                    g0.wf(),
                    graph.wf(),
                    graph.nodes@ == g0.nodes@,
                    graph.node_map == g0.node_map,
                    node_idx < g0.n(),
                    label@ == switch_label(),
                    b < subnets@.len(),
                    *sub == subnets@[b as int],
                    q <= sub.access_points@.len(),
                    key == (ied@, ap@),
                    swk == (sub.name@, switch_label()),
                    g0.n() <= usize::MAX,
                    g0.nodes@[node_idx as int].key() == key,
                    lb == links + switch_links(subnets@.take(b as int), key),
                    edges_are_links(graph, lb + listing_links(sub.access_points@.take(q as int), key, swk)),
                    in_link_order(graph, lb + listing_links(sub.access_points@.take(q as int), key, swk)),
                    links_on_nodes(graph, lb + listing_links(sub.access_points@.take(q as int), key, swk)),
                    g0.find((sub.name@, switch_label())) is Some,
                    forall|u: int, v: int| #[trigger] graph.edge(u, v) <==> (g0.edge(u, v)
                        || (u == node_idx && 0 <= v < g0.n() && (switch_of(subnets@.take(b as int), (ied@, ap@), g0.nodes@[v].key())
                            || (g0.nodes@[v].key() == (sub.name@, switch_label()) && lists_before(*sub, (ied@, ap@), q as int))))
                        || (v == node_idx && 0 <= u < g0.n() && (switch_of(subnets@.take(b as int), (ied@, ap@), g0.nodes@[u].key())
                            || (g0.nodes@[u].key() == (sub.name@, switch_label()) && lists_before(*sub, (ied@, ap@), q as int))))),
                decreases sub.access_points@.len() - q,
            {
                let pair = &sub.access_points[q];
                let ghost lq = lb + listing_links(sub.access_points@.take(q as int), key, swk);
                proof {
                    assert(sub.access_points@.take(q + 1).drop_last() =~= sub.access_points@.take(q as int));
                    assert(sub.access_points@.take(q + 1).last() == *pair);
                }
                if pair.0 == *ied && pair.1 == *ap {
                    let found = pair_map_get(&graph.node_map, &sub.name, &label);
                    proof {
                        assert(g0.find(swk) is Some);
                        assert(found is Some);
                    }
                    if let Some(switch_idx) = found {
                        let ghost ga = *graph;
                        graph.add_edge(node_idx, switch_idx);
                        let ghost gb = *graph;
                        proof {
                            assert(ga.nodes@[switch_idx as int].key() == swk);
                            lemma_link_order_add(&ga, &gb, lq, node_idx as int, switch_idx as int);
                            lemma_links_on_nodes_push(&ga, lq, node_idx as int, switch_idx as int);
                            lemma_links_on_nodes_same(&ga, &gb, lq.push((key, swk)));
                        }
                        graph.add_edge(switch_idx, node_idx);
                        proof {
                            let lq1 = lq.push((key, swk));
                            assert(gb.nodes@ == ga.nodes@);
                            lemma_link_order_add(&gb, &*graph, lq1, switch_idx as int, node_idx as int);
                            lemma_links_on_nodes_push(&gb, lq1, switch_idx as int, node_idx as int);
                            lemma_links_on_nodes_same(&gb, &*graph, lq1.push((swk, key)));
                            assert(lq1.push((swk, key)) =~= lb + listing_links(sub.access_points@.take(q + 1), key, swk));
                        }
                    }
                } else {
                    proof {
                        assert(lq =~= lb + listing_links(sub.access_points@.take(q + 1), key, swk));
                    }
                }
                proof {
                    let k = (ied@, ap@);
                    let swk = (sub.name@, switch_label());
                    assert(lists_before(*sub, k, q + 1) <==> (lists_before(*sub, k, q as int)
                        || (sub.access_points@[q as int].0@ == k.0 && sub.access_points@[q as int].1@ == k.1))) by {
                        if lists_before(*sub, k, q + 1) {
                            let i = choose|i: int| 0 <= i < q + 1 && (#[trigger] sub.access_points@[i]).0@ == k.0 && sub.access_points@[i].1@ == k.1;
                            if i < q {}
                        }
                    }
                    let sidx = g0.find(swk)->0;
                    assert(g0.nodes@[sidx as int].key() == swk);
                    assert forall|x: int| 0 <= x < g0.n() && g0.nodes@[x].key() == swk implies x == sidx by {
                        if x != sidx { assert(g0.nodes@[x].key() != g0.nodes@[sidx as int].key()); }
                    }
                }
                q = q + 1;
            }
            proof {
                let k = (ied@, ap@);
                assert(sub.access_points@.take(q as int) =~= sub.access_points@);
                assert(subnets@.take(b + 1).drop_last() =~= subnets@.take(b as int));
                assert(subnets@.take(b + 1).last() == *sub);
                assert(switch_links(subnets@.take(b + 1), key) == switch_links(subnets@.take(b as int), key)
                    + listing_links(sub.access_points@, key, swk));
                assert(lb + listing_links(sub.access_points@, key, swk) =~= links + switch_links(subnets@.take(b + 1), key));
                assert(lists_before(*sub, k, q as int) == lists(*sub, k));
                assert(subnets@.take(b + 1) =~= subnets@.take(b as int).push(*sub));
                assert forall|key: (Seq<char>, Seq<char>)| #[trigger] switch_of(subnets@.take(b + 1), k, key) <==>
                    (switch_of(subnets@.take(b as int), k, key) || (key == (sub.name@, switch_label()) && lists(*sub, k))) by {
                    let t1 = subnets@.take(b + 1);
                    let t0 = subnets@.take(b as int);
                    if switch_of(t1, k, key) {
                        let c = choose|c: int| 0 <= c < t1.len() && (#[trigger] t1[c]).name@ == key.0 && key.1 == switch_label() && lists(t1[c], k);
                        if c < b { assert(t0[c] == t1[c]); }
                    }
                    if switch_of(t0, k, key) {
                        let c = choose|c: int| 0 <= c < t0.len() && (#[trigger] t0[c]).name@ == key.0 && key.1 == switch_label() && lists(t0[c], k);
                        assert(t1[c] == t0[c]);
                    }
                    if key == (sub.name@, switch_label()) && lists(*sub, k) {
                        assert(t1[b as int] == *sub);
                    }
                }
            }
            b = b + 1;
        }
        proof { assert(subnets@.take(b as int) =~= subnets@); }
    }

    /// Adds an edge into `sub_idx` from the node of each terminal's
    /// publisher, where that node exists.
    fn link_subscribers(graph: &mut DirectedGraph, sub_idx: usize, subs: &Vec<VirtualTerminal>, Ghost(links): Ghost<Seq<Link>>)
        requires
            old(graph).wf(),
            sub_idx < old(graph).n(),
            old(graph).n() <= usize::MAX,
            edges_are_links(old(graph), links),
            in_link_order(old(graph), links),
        ensures
            edges_are_links(final(graph), links + vt_links(subs@, old(graph).nodes@[sub_idx as int].key())),
            in_link_order(final(graph), links + vt_links(subs@, old(graph).nodes@[sub_idx as int].key())),
            final(graph).wf(),
            final(graph).nodes@ == old(graph).nodes@,
            final(graph).node_map == old(graph).node_map,
            forall|u: int, v: int| #[trigger] final(graph).edge(u, v) <==> (old(graph).edge(u, v)
                || (v == sub_idx && 0 <= u < old(graph).n() && exists|k: int| 0 <= k < subs@.len()
                    && (#[trigger] subs@[k]).ied_name@ == old(graph).nodes@[u].key().0
                    && subs@[k].ap_name@ == old(graph).nodes@[u].key().1)),
    {
        let ghost g0 = *graph;
        proof {
            assert(links + vt_links(subs@.take(0), g0.nodes@[sub_idx as int].key()) =~= links);
        }
        let mut k: usize = 0;
        while k < subs.len()
            invariant
                graph.wf(),
                graph.nodes@ == g0.nodes@,
                graph.node_map == g0.node_map,
                g0.wf(),
                sub_idx < g0.n(),
                k <= subs@.len(),
                g0.n() <= usize::MAX,
                edges_are_links(graph, links + vt_links(subs@.take(k as int), g0.nodes@[sub_idx as int].key())),
                in_link_order(graph, links + vt_links(subs@.take(k as int), g0.nodes@[sub_idx as int].key())),
                forall|u: int, v: int| #[trigger] graph.edge(u, v) <==> (g0.edge(u, v)
                    || (v == sub_idx && 0 <= u < g0.n() && exists|q: int| 0 <= q < k
                        && (#[trigger] subs@[q]).ied_name@ == g0.nodes@[u].key().0
                        && subs@[q].ap_name@ == g0.nodes@[u].key().1)),
            decreases subs@.len() - k,
        {
            let vt = &subs[k];
            let found = pair_map_get(&graph.node_map, &vt.ied_name, &vt.ap_name);
            let ghost g1 = *graph;
            let ghost sk = g0.nodes@[sub_idx as int].key();
            let ghost l0 = links + vt_links(subs@.take(k as int), sk);
            proof {
                assert(links + vt_links(subs@.take(k + 1), sk) =~= l0.push(((vt.ied_name@, vt.ap_name@), sk)));
            }
            if let Some(pub_idx) = found {
                graph.add_edge(pub_idx, sub_idx);
                proof {
                    assert(g1.nodes@[pub_idx as int].key() == (vt.ied_name@, vt.ap_name@));
                    lemma_link_order_add(&g1, &*graph, l0, pub_idx as int, sub_idx as int);
                }
            } else {
                proof {
                    assert forall|a: int| 0 <= a < g1.n() implies #[trigger] g1.nodes@[a].key() != (vt.ied_name@, vt.ap_name@) by {
                        if g1.nodes@[a].key() == (vt.ied_name@, vt.ap_name@) {
                            assert(pair_map_contents(g1.node_map).dom().contains(g1.nodes@[a].key()));
                        }
                    }
                    lemma_link_order_skip(&g1, l0, ((vt.ied_name@, vt.ap_name@), sk));
                }
            }
            proof {
                assert forall|u: int, v: int| #[trigger] graph.edge(u, v) <==> (g0.edge(u, v)
                    || (v == sub_idx && 0 <= u < g0.n() && exists|q: int| 0 <= q < k + 1
                        && (#[trigger] subs@[q]).ied_name@ == g0.nodes@[u].key().0
                        && subs@[q].ap_name@ == g0.nodes@[u].key().1)) by {
                    if v == sub_idx && 0 <= u < g0.n() && subs@[k as int].ied_name@ == g0.nodes@[u].key().0
                        && subs@[k as int].ap_name@ == g0.nodes@[u].key().1 {
                        assert(g1.find((vt.ied_name@, vt.ap_name@)) == Some(u as usize));
                    }
                    if found is Some && u == found->0 && v == sub_idx {
                        assert(g1.nodes@[u].key() == (vt.ied_name@, vt.ap_name@));
                    }
                }
            }
            k = k + 1;
        }
        proof {
            assert(subs@.take(k as int) =~= subs@);
        }
    }
}

impl Default for GraphBuilder {
    /// The same as `new`.
    fn default() -> (r: Self)
        ensures
            r == GraphBuilder,
    {
        GraphBuilder::new()
    }
}

/// The ways in which a graph's nodes are the descriptions `ns`.
proof fn lemma_nodes_match_intro(g: &DirectedGraph, ns: Seq<NodeSpec>)
    requires
        g.n() == ns.len(),
        forall|i: int| 0 <= i < ns.len() ==> (#[trigger] g.nodes@[i]).key() == spec_key(ns[i]),
        forall|i: int| 0 <= i < ns.len() ==> (#[trigger] g.nodes@[i]).node_type == ns[i].2,
        forall|i: int| 0 <= i < ns.len() ==> (#[trigger] g.nodes@[i]).index == i,
    ensures
        nodes_match(g, ns),
{
    assert forall|i: int| 0 <= i < ns.len() implies #[trigger] g.nodes@[i].key() == spec_key(ns[i])
        && g.nodes@[i].node_type == ns[i].2 && g.nodes@[i].index == i by {
        assert(g.nodes@[i].key() == spec_key(ns[i]));
    }
}

/// Graphs with the same nodes match the same descriptions.
proof fn lemma_nodes_match_same(g1: &DirectedGraph, g2: &DirectedGraph, ns: Seq<NodeSpec>)
    requires
        g1.nodes@ == g2.nodes@,
        nodes_match(g1, ns),
    ensures
        nodes_match(g2, ns),
{
    assert forall|i: int| 0 <= i < ns.len() implies (#[trigger] g2.nodes@[i]).key() == spec_key(ns[i]) by {
        assert(g1.nodes@[i].key() == spec_key(ns[i]));
    }
    assert forall|i: int| 0 <= i < ns.len() implies (#[trigger] g2.nodes@[i]).node_type == ns[i].2 by {
        assert(g1.nodes@[i].key() == spec_key(ns[i]));
    }
    assert forall|i: int| 0 <= i < ns.len() implies (#[trigger] g2.nodes@[i]).index == i by {
        assert(g1.nodes@[i].key() == spec_key(ns[i]));
    }
    lemma_nodes_match_intro(g2, ns);
}

/// `attached` for a list with one more entry.
proof fn lemma_attached_push(prev: Seq<ApEntry>, e: ApEntry, subnets: Seq<SubNetwork>, k: (Seq<char>, Seq<char>), sw: (Seq<char>, Seq<char>))
    ensures
        attached(prev.push(e), subnets, k, sw) <==> (attached(prev, subnets, k, sw)
            || (k == (e.0, e.1.name@) && switch_of(subnets, k, sw))),
{
    let next = prev.push(e);
    if exists|a: int| 0 <= a < next.len() && (#[trigger] next[a]).0 == k.0 && next[a].1.name@ == k.1 {
        let a = choose|a: int| 0 <= a < next.len() && (#[trigger] next[a]).0 == k.0 && next[a].1.name@ == k.1;
        if a < prev.len() { assert(prev[a] == next[a]); }
    }
    if exists|a: int| 0 <= a < prev.len() && (#[trigger] prev[a]).0 == k.0 && prev[a].1.name@ == k.1 {
        let a = choose|a: int| 0 <= a < prev.len() && (#[trigger] prev[a]).0 == k.0 && prev[a].1.name@ == k.1;
        assert(next[a] == prev[a]);
    }
    if k == (e.0, e.1.name@) {
        assert(next[prev.len() as int] == e);
    }
}

/// The nodes described before the entries are kept.
proof fn lemma_ap_nodes_keep_start(start: Seq<NodeSpec>, entries: Seq<ApEntry>, role: spec_fn(AccessPoint) -> NodeType, k: (Seq<char>, Seq<char>))
    requires
        has_key(start, k),
    ensures
        has_key(ap_nodes(start, entries, role), k),
    decreases entries.len(),
{
    if entries.len() > 0 {
        lemma_ap_nodes_keep_start(start, entries.drop_last(), role, k);
        let prev = ap_nodes(start, entries.drop_last(), role);
        let e = entries.last();
        let t = (e.0, e.1.name@, role(e.1));
        if !has_key(prev, spec_key(t)) {
            let i = choose|i: int| 0 <= i < prev.len() && spec_key(#[trigger] prev[i]) == k;
            assert(prev.push(t)[i] == prev[i]);
        }
    }
}

/// Every subnetwork has a switch node description.
proof fn lemma_switch_cover(subnets: Seq<SubNetwork>, b: int)
    requires
        0 <= b < subnets.len(),
    ensures
        has_key(switch_nodes(subnets), (subnets[b].name@, switch_label())),
    decreases subnets.len(),
{
    let prev = switch_nodes(subnets.drop_last());
    let t = (subnets.last().name@, switch_label(), NodeType::Switch);
    if b == subnets.len() - 1 {
        if !has_key(prev, spec_key(t)) {
            assert(prev.push(t)[prev.len() as int] == t);
        }
    } else {
        assert(subnets.drop_last()[b] == subnets[b]);
        lemma_switch_cover(subnets.drop_last(), b);
        if !has_key(prev, spec_key(t)) {
            let i = choose|i: int| 0 <= i < prev.len() && spec_key(#[trigger] prev[i]) == (subnets[b].name@, switch_label());
            assert(prev.push(t)[i] == prev[i]);
        }
    }
}

/// A graph whose nodes are the layered node descriptions has a node for the
/// switch of every subnetwork.
proof fn lemma_switches_present(g: &DirectedGraph, sw: Seq<NodeSpec>, entries: Seq<ApEntry>, subnets: Seq<SubNetwork>, role: spec_fn(AccessPoint) -> NodeType)
    requires
        g.wf(),
        sw == switch_nodes(subnets),
        nodes_match(g, ap_nodes(sw, entries, role)),
    ensures
        forall|b: int| 0 <= b < subnets.len() ==> (#[trigger] g.find((subnets[b].name@, switch_label()))) is Some,
{
    assert forall|b: int| 0 <= b < subnets.len() implies (#[trigger] g.find((subnets[b].name@, switch_label()))) is Some by {
        let k = (subnets[b].name@, switch_label());
        lemma_switch_cover(subnets, b);
        lemma_ap_nodes_keep_start(sw, entries, role, k);
        let ns = ap_nodes(sw, entries, role);
        let i = choose|i: int| 0 <= i < ns.len() && spec_key(#[trigger] ns[i]) == k;
        assert(g.nodes@[i].key() == k);
    }
}

/// A key that no earlier description has is neither an access point among
/// the earlier entries nor the switch of a subnetwork.
proof fn lemma_new_key_unattached(sw: Seq<NodeSpec>, prev: Seq<ApEntry>, subnets: Seq<SubNetwork>, role: spec_fn(AccessPoint) -> NodeType, k: (Seq<char>, Seq<char>))
    requires
        sw == switch_nodes(subnets),
        !has_key(ap_nodes(sw, prev, role), k),
    ensures
        forall|x: (Seq<char>, Seq<char>)| !(#[trigger] attached(prev, subnets, k, x)),
        forall|x: (Seq<char>, Seq<char>)| !(#[trigger] attached(prev, subnets, x, k)),
{
    assert forall|x: (Seq<char>, Seq<char>)| !(#[trigger] attached(prev, subnets, k, x)) by {
        if attached(prev, subnets, k, x) {
            let a = choose|a: int| 0 <= a < prev.len() && (#[trigger] prev[a]).0 == k.0 && prev[a].1.name@ == k.1;
            assert(prev.contains(prev[a]));
            lemma_ap_nodes_cover(sw, prev, role, prev[a]);
            assert((prev[a].0, prev[a].1.name@) == k);
        }
    }
    assert forall|x: (Seq<char>, Seq<char>)| !(#[trigger] attached(prev, subnets, x, k)) by {
        if attached(prev, subnets, x, k) {
            let b = choose|b: int| 0 <= b < subnets.len() && (#[trigger] subnets[b]).name@ == k.0 && k.1 == switch_label()
                && lists(subnets[b], x);
            lemma_switch_cover(subnets, b);
            assert((subnets[b].name@, switch_label()) == k);
            lemma_ap_nodes_keep_start(sw, prev, role, k);
        }
    }
}

/// Splitting a search in a concatenation of link lists.
proof fn lemma_links_split(
    a: Seq<((Seq<char>, Seq<char>), (Seq<char>, Seq<char>))>,
    b: Seq<((Seq<char>, Seq<char>), (Seq<char>, Seq<char>))>,
    x: ((Seq<char>, Seq<char>), (Seq<char>, Seq<char>)),
)
    ensures
        (exists|k: int| 0 <= k < (a + b).len() && #[trigger] (a + b)[k] == x)
            <==> ((exists|k: int| 0 <= k < a.len() && #[trigger] a[k] == x)
                || (exists|k: int| 0 <= k < b.len() && #[trigger] b[k] == x)),
{
    if exists|k: int| 0 <= k < (a + b).len() && #[trigger] (a + b)[k] == x {
        let k = choose|k: int| 0 <= k < (a + b).len() && #[trigger] (a + b)[k] == x;
        if k < a.len() { assert(a[k] == x); } else { assert(b[k - a.len()] == x); }
    }
    if exists|k: int| 0 <= k < a.len() && #[trigger] a[k] == x {
        let k = choose|k: int| 0 <= k < a.len() && #[trigger] a[k] == x;
        assert((a + b)[k] == x);
    }
    if exists|k: int| 0 <= k < b.len() && #[trigger] b[k] == x {
        let k = choose|k: int| 0 <= k < b.len() && #[trigger] b[k] == x;
        assert((a + b)[a.len() + k] == x);
    }
}

/// What the links of one access point say.
proof fn lemma_ap_links(ied: Seq<char>, ap: AccessPoint, pk: (Seq<char>, Seq<char>), sk: (Seq<char>, Seq<char>))
    ensures
        (exists|k: int| 0 <= k < ap_links((ied, ap)).len() && #[trigger] ap_links((ied, ap))[k] == (pk, sk))
            <==> (sk == (ied, ap.name@) && ((exists|k: int| 0 <= k < ap.goose_subs@.len()
                && (#[trigger] ap.goose_subs@[k]).ied_name@ == pk.0 && ap.goose_subs@[k].ap_name@ == pk.1)
                || (exists|k: int| 0 <= k < ap.sv_subs@.len()
                && (#[trigger] ap.sv_subs@[k]).ied_name@ == pk.0 && ap.sv_subs@[k].ap_name@ == pk.1))),
{
    let subs = ap.goose_subs@ + ap.sv_subs@;
    let links = ap_links((ied, ap));
    if exists|k: int| 0 <= k < links.len() && #[trigger] links[k] == (pk, sk) {
        let k = choose|k: int| 0 <= k < links.len() && #[trigger] links[k] == (pk, sk);
        assert(links[k] == ((subs[k].ied_name@, subs[k].ap_name@), (ied, ap.name@)));
        if k < ap.goose_subs@.len() {
            assert(subs[k] == ap.goose_subs@[k]);
        } else {
            assert(subs[k] == ap.sv_subs@[k - ap.goose_subs@.len()]);
        }
    }
    if sk == (ied, ap.name@) {
        if exists|k: int| 0 <= k < ap.goose_subs@.len()
            && (#[trigger] ap.goose_subs@[k]).ied_name@ == pk.0 && ap.goose_subs@[k].ap_name@ == pk.1 {
            let k = choose|k: int| 0 <= k < ap.goose_subs@.len()
                && (#[trigger] ap.goose_subs@[k]).ied_name@ == pk.0 && ap.goose_subs@[k].ap_name@ == pk.1;
            assert(subs[k] == ap.goose_subs@[k]);
            assert(links[k] == (pk, sk));
        }
        if exists|k: int| 0 <= k < ap.sv_subs@.len()
            && (#[trigger] ap.sv_subs@[k]).ied_name@ == pk.0 && ap.sv_subs@[k].ap_name@ == pk.1 {
            let k = choose|k: int| 0 <= k < ap.sv_subs@.len()
                && (#[trigger] ap.sv_subs@[k]).ied_name@ == pk.0 && ap.sv_subs@[k].ap_name@ == pk.1;
            let q = ap.goose_subs@.len() + k;
            assert(subs[q] == ap.sv_subs@[k]);
            assert(links[q] == (pk, sk));
        }
    }
}

/// Each access point of the `j`-th place of IED `i` occurs among all access points.
proof fn lemma_entry_in_prefix(ieds: Seq<IED>, i: int, j: int)
    requires
        0 <= i < ieds.len(),
        0 <= j < ieds[i].access_points@.len(),
    ensures
        all_access_points(ieds).contains((ieds[i].name@, ieds[i].access_points@[j])),
    decreases ieds.len(),
{
    if i == ieds.len() - 1 {
        let a = all_access_points(ieds.drop_last());
        let b = ied_access_points(ieds.last());
        assert(b[j] == (ieds[i].name@, ieds[i].access_points@[j]));
        assert((a + b)[a.len() + j] == b[j]);
    } else {
        lemma_entry_in_prefix(ieds.drop_last(), i, j);
        let a = all_access_points(ieds.drop_last());
        let b = ied_access_points(ieds.last());
        let k = choose|k: int| 0 <= k < a.len() && a[k] == (ieds[i].name@, ieds[i].access_points@[j]);
        assert((a + b)[k] == a[k]);
    }
}

/// Every entry gets a node, and the nodes have distinct keys.
proof fn lemma_ap_nodes_cover(start: Seq<NodeSpec>, entries: Seq<ApEntry>, role: spec_fn(AccessPoint) -> NodeType, e: ApEntry)
    requires
        entries.contains(e),
    ensures
        has_key(ap_nodes(start, entries, role), (e.0, e.1.name@)),
    decreases entries.len(),
{
    let prev = ap_nodes(start, entries.drop_last(), role);
    let last = entries.last();
    let t = (last.0, last.1.name@, role(last.1));
    if e == last {
        if !has_key(prev, spec_key(t)) {
            assert(prev.push(t)[prev.len() as int] == t);
        }
    } else {
        let k = choose|k: int| 0 <= k < entries.len() && entries[k] == e;
        assert(entries.drop_last()[k] == e);
        lemma_ap_nodes_cover(start, entries.drop_last(), role, e);
        if !has_key(prev, spec_key(t)) {
            let i = choose|i: int| 0 <= i < prev.len() && spec_key(#[trigger] prev[i]) == (e.0, e.1.name@);
            assert(prev.push(t)[i] == prev[i]);
        }
    }
}

/// The pair of names of an access point entry.
pub open spec fn entry_key(e: ApEntry) -> (Seq<char>, Seq<char>) {
    (e.0, e.1.name@)
}

/// Entry `a` is the first of `entries` with the pair of names `k`.
pub open spec fn first_with_key(entries: Seq<ApEntry>, k: (Seq<char>, Seq<char>), a: int) -> bool {
    &&& 0 <= a < entries.len()
    &&& entry_key(entries[a]) == k
    &&& forall|a2: int| 0 <= a2 < a ==> entry_key(#[trigger] entries[a2]) != k
}

/// The node description `t` has the pair of names of some access point of
/// `entries` and the role of the first one with that pair.
pub open spec fn first_role(entries: Seq<ApEntry>, role: spec_fn(AccessPoint) -> NodeType, t: NodeSpec) -> bool {
    exists|a: int| #[trigger] first_with_key(entries, spec_key(t), a) && t.2 == role(entries[a].1)
}

/// The node descriptions of the access points are one per distinct pair of
/// names, each pair once, in the order of first occurrence, each with the
/// role of the first access point with that pair; and every access point's
/// pair has one.
pub proof fn lemma_ap_nodes_law(entries: Seq<ApEntry>, role: spec_fn(AccessPoint) -> NodeType)
    ensures
        forall|i: int, j: int| 0 <= i < j < ap_nodes(Seq::empty(), entries, role).len()
            ==> spec_key(#[trigger] ap_nodes(Seq::empty(), entries, role)[i]) != spec_key(#[trigger] ap_nodes(Seq::empty(), entries, role)[j]),
        forall|i: int| 0 <= i < ap_nodes(Seq::empty(), entries, role).len()
            ==> first_role(entries, role, #[trigger] ap_nodes(Seq::empty(), entries, role)[i]),
        forall|i1: int, i2: int, a1: int, a2: int| 0 <= i1 < i2 < ap_nodes(Seq::empty(), entries, role).len()
            && #[trigger] first_with_key(entries, spec_key(ap_nodes(Seq::empty(), entries, role)[i1]), a1)
            && #[trigger] first_with_key(entries, spec_key(ap_nodes(Seq::empty(), entries, role)[i2]), a2) ==> a1 < a2,
        forall|a: int| 0 <= a < entries.len() ==> has_key(ap_nodes(Seq::empty(), entries, role), entry_key(#[trigger] entries[a])),
    decreases entries.len(),
{
    let ns = ap_nodes(Seq::empty(), entries, role);
    assert forall|a: int| 0 <= a < entries.len() implies has_key(ns, entry_key(#[trigger] entries[a])) by {
        assert(entries.contains(entries[a]));
        lemma_ap_nodes_cover(Seq::empty(), entries, role, entries[a]);
    }
    if entries.len() > 0 {
        let p = entries.drop_last();
        let n = entries.len() - 1;
        let last = entries.last();
        assert(entries[n] == last);
        lemma_ap_nodes_law(p, role);
        let ns0 = ap_nodes(Seq::empty(), p, role);
        let t: NodeSpec = (last.0, last.1.name@, role(last.1));
        assert(ns == add_spec_node(ns0, t));
        assert forall|a: int| 0 <= a < p.len() implies p[a] == entries[a] by {}
        // First occurrences in the shorter list stay first.
        assert forall|k: (Seq<char>, Seq<char>), a: int| first_with_key(p, k, a) implies #[trigger] first_with_key(entries, k, a) by {
            assert forall|a2: int| 0 <= a2 < a implies entry_key(#[trigger] entries[a2]) != k by {
                assert(entries[a2] == p[a2]);
            }
        }
        assert forall|k: (Seq<char>, Seq<char>), a: int| #[trigger] first_with_key(entries, k, a) && a < n implies first_with_key(p, k, a) by {
            assert forall|a2: int| 0 <= a2 < a implies entry_key(#[trigger] p[a2]) != k by {
                assert(entries[a2] == p[a2]);
            }
        }
        if !has_key(ns0, spec_key(t)) {
            assert(ns == ns0.push(t));
            assert(first_with_key(entries, spec_key(t), n)) by {
                assert forall|a2: int| 0 <= a2 < n implies entry_key(#[trigger] entries[a2]) != spec_key(t) by {
                    assert(entries[a2] == p[a2]);
                    assert(has_key(ns0, entry_key(p[a2])));
                }
            }
            assert forall|i: int, j: int| 0 <= i < j < ns.len() implies spec_key(#[trigger] ns[i]) != spec_key(#[trigger] ns[j]) by {
                assert(ns[i] == ns0[i]);
                if j < ns0.len() { assert(ns[j] == ns0[j]); }
            }
            assert forall|i: int| 0 <= i < ns.len() implies first_role(entries, role, #[trigger] ns[i]) by {
                if i < ns0.len() {
                    assert(ns[i] == ns0[i]);
                    assert(first_role(p, role, ns0[i]));
                let a = choose|a: int| #[trigger] first_with_key(p, spec_key(ns0[i]), a) && ns0[i].2 == role(p[a].1);
                    assert(first_with_key(entries, spec_key(ns0[i]), a));
                } else {
                    assert(ns[i] == t);
                    assert(first_with_key(entries, spec_key(ns[i]), n));
                }
            }
            assert forall|i1: int, i2: int, a1: int, a2: int| 0 <= i1 < i2 < ns.len()
                && #[trigger] first_with_key(entries, spec_key(ns[i1]), a1)
                && #[trigger] first_with_key(entries, spec_key(ns[i2]), a2) implies a1 < a2 by {
                assert(ns[i1] == ns0[i1]);
                assert(first_role(p, role, ns0[i1]));
                let b1 = choose|a: int| #[trigger] first_with_key(p, spec_key(ns0[i1]), a) && ns0[i1].2 == role(p[a].1);
                assert(first_with_key(entries, spec_key(ns0[i1]), b1));
                assert(a1 == b1) by {
                    if a1 < b1 { assert(entry_key(entries[a1]) == spec_key(ns0[i1])); }
                    if b1 < a1 { assert(entry_key(entries[b1]) == spec_key(ns0[i1])); }
                }
                if i2 < ns0.len() {
                    assert(ns[i2] == ns0[i2]);
                    assert(first_role(p, role, ns0[i2]));
                let b2 = choose|a: int| #[trigger] first_with_key(p, spec_key(ns0[i2]), a) && ns0[i2].2 == role(p[a].1);
                    assert(first_with_key(entries, spec_key(ns0[i2]), b2));
                    assert(a2 == b2) by {
                        if a2 < b2 { assert(entry_key(entries[a2]) == spec_key(ns0[i2])); }
                        if b2 < a2 { assert(entry_key(entries[b2]) == spec_key(ns0[i2])); }
                    }
                    assert(first_with_key(p, spec_key(ns0[i1]), b1));
                    assert(first_with_key(p, spec_key(ns0[i2]), b2));
                } else {
                    assert(ns[i2] == t);
                    assert(a2 == n) by {
                        if a2 < n { assert(entry_key(entries[n]) == spec_key(t)); }
                    }
                }
            }
        } else {
            assert(ns == ns0);
            assert forall|i: int| 0 <= i < ns.len() implies first_role(entries, role, #[trigger] ns[i]) by {
                assert(first_role(p, role, ns0[i]));
                assert(first_role(p, role, ns0[i]));
                let a = choose|a: int| #[trigger] first_with_key(p, spec_key(ns0[i]), a) && ns0[i].2 == role(p[a].1);
                assert(first_with_key(entries, spec_key(ns0[i]), a));
            }
            assert forall|i1: int, i2: int, a1: int, a2: int| 0 <= i1 < i2 < ns.len()
                && #[trigger] first_with_key(entries, spec_key(ns[i1]), a1)
                && #[trigger] first_with_key(entries, spec_key(ns[i2]), a2) implies a1 < a2 by {
                assert(first_role(p, role, ns0[i1]));
                let b1 = choose|a: int| #[trigger] first_with_key(p, spec_key(ns0[i1]), a) && ns0[i1].2 == role(p[a].1);
                assert(first_role(p, role, ns0[i2]));
                let b2 = choose|a: int| #[trigger] first_with_key(p, spec_key(ns0[i2]), a) && ns0[i2].2 == role(p[a].1);
                assert(first_with_key(entries, spec_key(ns0[i1]), b1));
                assert(first_with_key(entries, spec_key(ns0[i2]), b2));
                assert(a1 == b1) by {
                    if a1 < b1 { assert(entry_key(entries[a1]) == spec_key(ns0[i1])); }
                    if b1 < a1 { assert(entry_key(entries[b1]) == spec_key(ns0[i1])); }
                }
                assert(a2 == b2) by {
                    if a2 < b2 { assert(entry_key(entries[a2]) == spec_key(ns0[i2])); }
                    if b2 < a2 { assert(entry_key(entries[b2]) == spec_key(ns0[i2])); }
                }
            }
        }
    } else {
        assert(ns =~= Seq::<NodeSpec>::empty());
    }
}

} // verus!
