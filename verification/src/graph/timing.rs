//! Timing of protection signals along the communication graph.

use vstd::prelude::*;

use crate::graph::facts::{
    is_walk, lemma_closed_reach, lemma_distinct_below, lemma_edge_reaches, lemma_push_contains, lemma_reaches_self, lemma_reaches_trans,
    reaches, views,
};
use crate::graph::toposort::{cyclic_part, fed_from_within, is_node_permutation, is_kahn_order, is_topological_order, KahnTopoSort};
use crate::model::{DelayProfile, DirectedGraph, IEDRole, NodeType, TimingAnalysisResult, TimingPath, TimingViolation, ViolationSeverity};
use crate::text::{contains_text, label, make_label, occurs_in, to_upper, uppercase};

use crate::graph::depth_first::{
    depth_first_prefix, dfs_next, lemma_closed_walk_done, lemma_walk_fresh, pending_from, unlisted, walk_entry,
    walk_front,
};

verus! {

/// The role a device has by its upper-case name: the first of the keyword
/// groups (protection, merging unit, bay control, breaker, monitoring) that
/// has a keyword in the name decides.
pub open spec fn role_for(upper: Seq<char>) -> IEDRole {
    if occurs_in("PROT"@, upper) || occurs_in("PROTECTION"@, upper) || occurs_in("保护"@, upper) {
        IEDRole::ProtectionRelay
    } else if occurs_in("MU"@, upper) || occurs_in("MERGING"@, upper) || occurs_in("合并单元"@, upper) {
        IEDRole::MergingUnit
    } else if occurs_in("BCU"@, upper) || occurs_in("CONTROL"@, upper) || occurs_in("控制"@, upper)
        || occurs_in("BAY"@, upper) {
        IEDRole::BayControlUnit
    } else if occurs_in("CB"@, upper) || occurs_in("BREAKER"@, upper) || occurs_in("断路器"@, upper)
        || occurs_in("TRIP"@, upper) {
        IEDRole::CircuitBreaker
    } else if occurs_in("MONITOR"@, upper) || occurs_in("MON"@, upper) || occurs_in("监视"@, upper) {
        IEDRole::MonitoringDevice
    } else {
        IEDRole::Unknown
    }
}

/// Some keyword of `kws` occurs in `upper`.
pub open spec fn mentions_any(kws: Seq<Seq<char>>, upper: Seq<char>) -> bool {
    exists|i: int| 0 <= i < kws.len() && occurs_in(#[trigger] kws[i], upper)
}

/// The keywords that name a protection relay.
pub open spec fn protection_keywords() -> Seq<Seq<char>> {
    seq!["PROT"@, "PROTECTION"@, "保护"@]
}

/// The keywords that name a merging unit.
pub open spec fn merging_keywords() -> Seq<Seq<char>> {
    seq!["MU"@, "MERGING"@, "合并单元"@]
}

/// The keywords that name a bay control unit.
pub open spec fn bay_keywords() -> Seq<Seq<char>> {
    seq!["BCU"@, "CONTROL"@, "控制"@, "BAY"@]
}

/// The keywords that name a circuit breaker.
pub open spec fn breaker_keywords() -> Seq<Seq<char>> {
    seq!["CB"@, "BREAKER"@, "断路器"@, "TRIP"@]
}

/// The keywords that name a monitoring device.
pub open spec fn monitoring_keywords() -> Seq<Seq<char>> {
    seq!["MONITOR"@, "MON"@, "监视"@]
}

/// A list of three keywords is mentioned when one of the three occurs.
proof fn lemma_mentions_three(kws: Seq<Seq<char>>, upper: Seq<char>)
    requires
        kws.len() == 3,
    ensures
        mentions_any(kws, upper) <==> (occurs_in(kws[0], upper) || occurs_in(kws[1], upper) || occurs_in(kws[2], upper)),
{
    if mentions_any(kws, upper) {
        let i = choose|i: int| 0 <= i < kws.len() && occurs_in(#[trigger] kws[i], upper);
        assert(i == 0 || i == 1 || i == 2);
    }
}

/// A list of four keywords is mentioned when one of the four occurs.
proof fn lemma_mentions_four(kws: Seq<Seq<char>>, upper: Seq<char>)
    requires
        kws.len() == 4,
    ensures
        mentions_any(kws, upper) <==> (occurs_in(kws[0], upper) || occurs_in(kws[1], upper) || occurs_in(kws[2], upper)
            || occurs_in(kws[3], upper)),
{
    if mentions_any(kws, upper) {
        let i = choose|i: int| 0 <= i < kws.len() && occurs_in(#[trigger] kws[i], upper);
        assert(i == 0 || i == 1 || i == 2 || i == 3);
    }
}

/// The role an upper-case name gives is decided by the first group of
/// keywords that it mentions, the groups taken in the order protection,
/// merging unit, bay control, breaker, monitoring; a name that mentions
/// none is of unknown role.
pub proof fn lemma_role_keywords(upper: Seq<char>)
    ensures
        (role_for(upper) == IEDRole::ProtectionRelay) <==> mentions_any(protection_keywords(), upper),
        (role_for(upper) == IEDRole::MergingUnit) <==> !mentions_any(protection_keywords(), upper)
            && mentions_any(merging_keywords(), upper),
        (role_for(upper) == IEDRole::BayControlUnit) <==> !mentions_any(protection_keywords(), upper)
            && !mentions_any(merging_keywords(), upper) && mentions_any(bay_keywords(), upper),
        (role_for(upper) == IEDRole::CircuitBreaker) <==> !mentions_any(protection_keywords(), upper)
            && !mentions_any(merging_keywords(), upper) && !mentions_any(bay_keywords(), upper)
            && mentions_any(breaker_keywords(), upper),
        (role_for(upper) == IEDRole::MonitoringDevice) <==> !mentions_any(protection_keywords(), upper)
            && !mentions_any(merging_keywords(), upper) && !mentions_any(bay_keywords(), upper)
            && !mentions_any(breaker_keywords(), upper) && mentions_any(monitoring_keywords(), upper),
        (role_for(upper) == IEDRole::Unknown) <==> !mentions_any(protection_keywords(), upper)
            && !mentions_any(merging_keywords(), upper) && !mentions_any(bay_keywords(), upper)
            && !mentions_any(breaker_keywords(), upper) && !mentions_any(monitoring_keywords(), upper),
{
    lemma_mentions_three(protection_keywords(), upper);
    lemma_mentions_three(merging_keywords(), upper);
    lemma_mentions_four(bay_keywords(), upper);
    lemma_mentions_four(breaker_keywords(), upper);
    lemma_mentions_three(monitoring_keywords(), upper);
}

/// The role of a node: a switch is a switch, any other node is classified by
/// the upper-case form of its IED name.
pub open spec fn classify_spec(ied_name: Seq<char>, node_type: NodeType) -> IEDRole {
    if node_type == NodeType::Switch {
        IEDRole::Switch
    } else {
        role_for(uppercase(ied_name))
    }
}

/// The delay profile of a role.
pub open spec fn profile_of(role: IEDRole) -> DelayProfile {
    match role {
        IEDRole::ProtectionRelay => DelayProfile::spec_protection_device(),
        IEDRole::MergingUnit => DelayProfile::spec_merging_unit(),
        IEDRole::BayControlUnit => DelayProfile::spec_bay_control(),
        IEDRole::CircuitBreaker => DelayProfile::spec_circuit_breaker(),
        IEDRole::Switch => DelayProfile::spec_switch_node(),
        IEDRole::MonitoringDevice => DelayProfile {
            internal_processing_us: 180,
            bus_forwarding_us: 45,
            switch_backplane_us: 100,
            network_propagation_us: 50,
        },
        IEDRole::Unknown => DelayProfile::spec_default(),
    }
}

/// The role of node `i`.
pub open spec fn node_role(g: &DirectedGraph, i: int) -> IEDRole {
    classify_spec(g.nodes@[i].ied_name@, g.nodes@[i].node_type)
}

/// The delay profiles of the nodes below `k`.
pub open spec fn profiles_before(g: &DirectedGraph, k: int) -> Seq<DelayProfile> {
    Seq::new(k as nat, |i: int| profile_of(node_role(g, i)))
}

/// A node that starts protection signals: a protection relay with an
/// outgoing edge.
pub open spec fn is_trigger(g: &DirectedGraph, i: int) -> bool {
    node_role(g, i) == IEDRole::ProtectionRelay && g.spec_out_degree(i) > 0
}

/// A node where protection signals end: a breaker or bay controller with an
/// incoming edge.
pub open spec fn is_terminal(g: &DirectedGraph, i: int) -> bool {
    (node_role(g, i) == IEDRole::CircuitBreaker || node_role(g, i) == IEDRole::BayControlUnit)
        && g.spec_in_degree(i) > 0
}

/// The nodes below `k` for which `p` holds, in increasing order.
pub open spec fn nodes_where(k: int, p: spec_fn(int) -> bool) -> Seq<usize>
    decreases k,
{
    if k <= 0 {
        Seq::empty()
    } else if p(k - 1) {
        nodes_where(k - 1, p).push((k - 1) as usize)
    } else {
        nodes_where(k - 1, p)
    }
}

/// The nodes below `k` for which `p` holds are listed exactly once each, in
/// increasing order, and nothing else is listed.
pub proof fn lemma_nodes_where_member(k: int, p: spec_fn(int) -> bool)
    requires
        k <= usize::MAX,
    ensures
        forall|v: int| #![trigger p(v)] 0 <= v < k ==> (p(v) <==> nodes_where(k, p).contains(v as usize)),
        forall|a: int| 0 <= a < nodes_where(k, p).len() ==> 0 <= #[trigger] nodes_where(k, p)[a] < k && p(nodes_where(k, p)[a] as int),
        forall|a: int, b: int| 0 <= a < b < nodes_where(k, p).len() ==> #[trigger] nodes_where(k, p)[a] < #[trigger] nodes_where(k, p)[b],
    decreases k,
{
    if k > 0 {
        lemma_nodes_where_member(k - 1, p);
        let r0 = nodes_where(k - 1, p);
        let r = nodes_where(k, p);
        if p(k - 1) {
            assert(r == r0.push((k - 1) as usize));
            assert forall|v: int| #![trigger p(v)] 0 <= v < k implies (p(v) <==> r.contains(v as usize)) by {
                if r.contains(v as usize) && v < k - 1 {
                    let a = choose|a: int| 0 <= a < r.len() && r[a] == v as usize;
                    if a < r0.len() { assert(r0[a] == r[a]); assert(r0.contains(v as usize)); }
                }
                if v < k - 1 && p(v) {
                    assert(r0.contains(v as usize));
                    let a = choose|a: int| 0 <= a < r0.len() && r0[a] == v as usize;
                    assert(r[a] == r0[a]);
                }
                if v == k - 1 {
                    assert(r[r0.len() as int] == v as usize);
                }
            }
            assert forall|a: int| 0 <= a < r.len() implies 0 <= #[trigger] r[a] < k && p(r[a] as int) by {
                if a < r0.len() { assert(r[a] == r0[a]); }
            }
            assert forall|a: int, b: int| 0 <= a < b < r.len() implies #[trigger] r[a] < #[trigger] r[b] by {
                assert(r[a] == r0[a]);
                assert(r0[a] < k - 1);
                if b < r0.len() { assert(r[b] == r0[b]); } else { assert(r[b] == (k - 1) as usize); }
            }
        } else {
            assert forall|v: int| #![trigger p(v)] 0 <= v < k implies (p(v) <==> r.contains(v as usize)) by {
                if v == k - 1 && r.contains(v as usize) {
                    let a = choose|a: int| 0 <= a < r.len() && r[a] == v as usize;
                }
            }
        }
    }
}

/// The totals of a list of profiles.
pub open spec fn totals_of(profiles: Seq<DelayProfile>) -> Seq<u64> {
    profiles.map_values(|p: DelayProfile| p.spec_total() as u64)
}

/// Every profile's total is at most a million microseconds.
pub open spec fn profiles_bounded(profiles: Seq<DelayProfile>) -> bool {
    forall|i: int| 0 <= i < profiles.len() ==> #[trigger] profiles[i].spec_total() <= 1_000_000
}

/// The profiles of the roles fall within the bound.
pub proof fn lemma_profile_bounded(role: IEDRole)
    ensures
        profile_of(role).spec_total() <= 1_000_000,
{
}

/// Raises the arrival time of each of `targets` to `val` where it is lower.
pub open spec fn relax_all(arr: Seq<u64>, targets: Seq<usize>, val: u64) -> Seq<u64>
    decreases targets.len(),
{
    if targets.len() == 0 {
        arr
    } else {
        let a = relax_all(arr, targets.drop_last(), val);
        let v = targets.last() as int;
        if val > a[v] { a.update(v, val) } else { a }
    }
}

/// The arrival times after the nodes of `order` have passed their signal on,
/// in that order: a node with no incoming edge sends at time 0, any other at
/// its own arrival time, and each target of its edges is raised to the send
/// time plus the node's delay (saturating at `u64::MAX`).
pub open spec fn arrivals(g: &DirectedGraph, delays: Seq<u64>, order: Seq<usize>) -> Seq<u64>
    decreases order.len(),
{
    if order.len() == 0 {
        Seq::new(g.n() as nat, |i: int| 0u64)
    } else {
        let a = arrivals(g, delays, order.drop_last());
        let u = order.last() as int;
        let base: u64 = if g.spec_in_degree(u) == 0 { 0 } else { a[u] };
        relax_all(a, g.adj(u), base.saturating_add(delays[u]))
    }
}

/// `arr` holds the latest arrival times of signals that start at time 0 and
/// pick up each node's delay as they leave it: a node without incoming
/// edges is reached at 0, any other at the largest of the times at which its
/// predecessors send (their arrival plus their delay, saturating at
/// `u64::MAX`).
pub open spec fn latest_arrivals(g: &DirectedGraph, delays: Seq<u64>, arr: Seq<u64>) -> bool {
    &&& arr.len() == g.n()
    &&& forall|u: usize, v: usize| #[trigger] g.edge(u as int, v as int) ==>
        arr[v as int] >= arr[u as int].saturating_add(delays[u as int])
    &&& forall|v: usize| v < g.n() ==> #[trigger] arr[v as int] == 0
        || exists|u: usize| #[trigger] g.edge(u as int, v as int) && arr[v as int] == arr[u as int].saturating_add(delays[u as int])
}

/// What raising the targets does to each arrival time.
proof fn lemma_relax_all_at(arr: Seq<u64>, targets: Seq<usize>, val: u64, v: usize)
    requires
        forall|i: int| 0 <= i < targets.len() ==> #[trigger] targets[i] < arr.len(),
        v < arr.len(),
    ensures
        relax_all(arr, targets, val).len() == arr.len(),
        relax_all(arr, targets, val)[v as int] == if targets.contains(v) && val > arr[v as int] { val } else { arr[v as int] },
    decreases targets.len(),
{
    if targets.len() > 0 {
        let t = targets.drop_last();
        let w = targets.last();
        lemma_relax_all_at(arr, t, val, v);
        lemma_relax_all_len(arr, t, val);
        assert(targets[targets.len() - 1] < arr.len());
        lemma_relax_all_at(arr, t, val, w);
        crate::graph::facts::lemma_push_contains(t, w, v);
        assert(targets =~= t.push(w));
        let a = relax_all(arr, t, val);
        let r = relax_all(arr, targets, val);
        assert(r == (if val > a[w as int] { a.update(w as int, val) } else { a }));
        if v == w {
            if t.contains(v) && val > arr[v as int] {
                assert(a[v as int] == val);
            } else {
                assert(a[v as int] == arr[v as int]);
            }
        } else {
            assert(r[v as int] == a[v as int]);
        }
    } else {
        assert(!targets.contains(v));
    }
}

/// The recurrence over the first `k` nodes of a topological order: each
/// arrival time is the largest send time of a predecessor among them, or 0.
spec fn arrivals_upto(g: &DirectedGraph, delays: Seq<u64>, order: Seq<usize>, k: int, a: Seq<u64>) -> bool {
    &&& a.len() == g.n()
    &&& forall|i: int, v: usize| 0 <= i < k && #[trigger] g.edge(order[i] as int, v as int) ==>
        a[v as int] >= a[order[i] as int].saturating_add(delays[order[i] as int])
    &&& forall|v: usize| v < g.n() ==> #[trigger] a[v as int] == 0
        || exists|i: int| 0 <= i < k && #[trigger] g.edge(order[i] as int, v as int)
            && a[v as int] == a[order[i] as int].saturating_add(delays[order[i] as int])
}

/// The recurrence holds after each node of a topological order has passed
/// its signal on.
proof fn lemma_arrivals_upto(g: &DirectedGraph, delays: Seq<u64>, order: Seq<usize>, k: int)
    requires
        g.wf(),
        is_topological_order(g, order),
        0 <= k <= order.len(),
    ensures
        arrivals_upto(g, delays, order, k, arrivals(g, delays, order.take(k))),
    decreases k,
{
    let n = g.n();
    if k == 0 {
        assert(order.take(0) =~= Seq::<usize>::empty());
    } else {
        let j = k - 1;
        lemma_arrivals_upto(g, delays, order, j);
        let pre = order.take(j);
        assert(order.take(k).drop_last() =~= pre);
        assert(order.take(k).last() == order[j]);
        assert forall|q: int| 0 <= q < pre.len() implies #[trigger] pre[q] < g.n() by {
            assert(pre[q] == order[q]);
        }
        let a = arrivals(g, delays, pre);
        let u = order[j];
        assert(u < n);
        let ui = u as int;
        let base: u64 = if g.spec_in_degree(ui) == 0 { 0 } else { a[ui] };
        assert(base == a[ui]) by {
            if g.spec_in_degree(ui) == 0 && a[ui] != 0 {
                let i = choose|i: int| 0 <= i < j && #[trigger] g.edge(order[i] as int, u as int)
                    && a[u as int] == a[order[i] as int].saturating_add(delays[order[i] as int]);
                let x = order[i] as int;
                assert(x < g.n());
                assert(g.adj(x).contains(ui as usize));
                assert(g.adj(x).contains(ui as usize) <==> g.radj(ui).contains(x as usize));
                assert(g.radj(ui).contains(x as usize));
                assert(g.radj(ui).len() == 0);
            }
        }
        let val = base.saturating_add(delays[ui]);
        let b = arrivals(g, delays, order.take(k));
        assert(b == relax_all(a, g.adj(ui), val));
        assert forall|i: int| 0 <= i < g.adj(ui).len() implies #[trigger] g.adj(ui)[i] < a.len() by {}
        // What a raise changes.
        assert forall|v: usize| v < n implies #[trigger] b[v as int] == (if g.adj(ui).contains(v) && val > a[v as int] { val } else { a[v as int] }) by {
            lemma_relax_all_at(a, g.adj(ui), val, v);
        }
        lemma_relax_all_len(a, g.adj(ui), val);
        // The nodes up to `u` are not raised: edges go forward.
        assert forall|i: int| 0 <= i <= j implies #[trigger] b[order[i] as int] == a[order[i] as int] by {
            let x = order[i];
            if g.adj(ui).contains(x) {
                assert(g.edge(order[j] as int, order[i] as int));
            }
        }
        assert forall|i: int, v: usize| 0 <= i < k && #[trigger] g.edge(order[i] as int, v as int) implies
            b[v as int] >= b[order[i] as int].saturating_add(delays[order[i] as int]) by {
            assert(b[order[i] as int] == a[order[i] as int]);
            if i < j {
                assert(a[v as int] >= a[order[i] as int].saturating_add(delays[order[i] as int]));
            } else {
                assert(g.adj(ui).contains(v));
            }
        }
        assert forall|v: usize| v < n implies #[trigger] b[v as int] == 0
            || exists|i: int| 0 <= i < k && #[trigger] g.edge(order[i] as int, v as int)
                && b[v as int] == b[order[i] as int].saturating_add(delays[order[i] as int]) by {
            if g.adj(ui).contains(v) && val > a[v as int] {
                assert(g.edge(order[j] as int, v as int));
                assert(b[order[j] as int] == a[ui]);
            } else if a[v as int] != 0 {
                let i = choose|i: int| 0 <= i < j && #[trigger] g.edge(order[i] as int, v as int)
                    && a[v as int] == a[order[i] as int].saturating_add(delays[order[i] as int]);
                assert(b[order[i] as int] == a[order[i] as int]);
            }
        }
    }
}

/// Along a topological order, the arrival times are the latest arrivals of
/// the graph: each node is reached when the last of its predecessors sends.
pub proof fn lemma_arrivals_along_topological_order(g: &DirectedGraph, delays: Seq<u64>, order: Seq<usize>)
    requires
        g.wf(),
        g.n() <= usize::MAX,
        is_topological_order(g, order),
    ensures
        latest_arrivals(g, delays, arrivals(g, delays, order)),
{
    lemma_arrivals_upto(g, delays, order, order.len() as int);
    assert(order.take(order.len() as int) =~= order);
    let a = arrivals(g, delays, order);
    lemma_distinct_below(order, g.n() as nat);
    assert forall|u: usize, v: usize| #[trigger] g.edge(u as int, v as int) implies
        a[v as int] >= a[u as int].saturating_add(delays[u as int]) by {
        assert(order.contains(u));
        let i = choose|i: int| 0 <= i < order.len() && order[i] == u;
        assert(g.edge(order[i] as int, v as int));
    }
    assert forall|v: usize| v < g.n() implies #[trigger] a[v as int] == 0
        || exists|u: usize| #[trigger] g.edge(u as int, v as int) && a[v as int] == a[u as int].saturating_add(delays[u as int]) by {
        if a[v as int] != 0 {
            let i = choose|i: int| 0 <= i < order.len() && #[trigger] g.edge(order[i] as int, v as int)
                && a[v as int] == a[order[i] as int].saturating_add(delays[order[i] as int]);
            let u = order[i];
            assert(g.edge(u as int, v as int));
        }
    }
}

/// Raising arrival times keeps their number.
proof fn lemma_relax_all_len(arr: Seq<u64>, targets: Seq<usize>, val: u64)
    requires
        forall|i: int| 0 <= i < targets.len() ==> #[trigger] targets[i] < arr.len(),
    ensures
        relax_all(arr, targets, val).len() == arr.len(),
    decreases targets.len(),
{
    if targets.len() > 0 {
        lemma_relax_all_len(arr, targets.drop_last(), val);
    }
}

/// Arrival times cover every node.
proof fn lemma_arrivals_len(g: &DirectedGraph, delays: Seq<u64>, order: Seq<usize>)
    requires
        g.wf(),
        forall|k: int| 0 <= k < order.len() ==> #[trigger] order[k] < g.n(),
    ensures
        arrivals(g, delays, order).len() == g.n(),
    decreases order.len(),
{
    if order.len() > 0 {
        lemma_arrivals_len(g, delays, order.drop_last());
        let a = arrivals(g, delays, order.drop_last());
        let u = order.last() as int;
        let base: u64 = if g.spec_in_degree(u) == 0 { 0 } else { a[u] };
        assert(order[order.len() - 1] < g.n());
        assert forall|i: int| 0 <= i < g.adj(u).len() implies #[trigger] g.adj(u)[i] < a.len() by {}
        lemma_relax_all_len(a, g.adj(u), base.saturating_add(delays[u]));
    }
}

/// The marks and the list of a walk agree: a node is marked exactly when it
/// is listed, the list holds no node twice and only nodes below `n`.
pub open spec fn walk_state(n: int, visited: Seq<bool>, order: Seq<usize>) -> bool {
    &&& visited.len() == n
    &&& order.no_duplicates()
    &&& order.len() <= n
    &&& forall|k: int| 0 <= k < order.len() ==> #[trigger] order[k] < n
    &&& forall|x: usize| x < n ==> (#[trigger] visited[x as int] <==> order.contains(x))
}

/// `x` is reached from one of the first `c` nodes of `cyclic`.
pub open spec fn reached_by_some(g: &DirectedGraph, cyclic: Seq<usize>, c: int, x: usize) -> bool {
    exists|i: int| 0 <= i < c && #[trigger] reaches(g, cyclic[i], x)
}

/// What the walks from the first `c` of `cyclic` have listed in `order`:
/// only nodes reached from them, every one of them, and nothing whose
/// out-neighbours are missing.
#[verifier::opaque]
pub open spec fn reached_from(g: &DirectedGraph, cyclic: Seq<usize>, c: int, order: Seq<usize>) -> bool {
    &&& forall|k: int| 0 <= k < order.len() ==> #[trigger] reached_by_some(g, cyclic, c, order[k])
    &&& forall|x: usize, y: usize| order.contains(x) && #[trigger] g.edge(x as int, y as int) ==> order.contains(y)
    &&& forall|i: int| 0 <= i < c ==> order.contains(#[trigger] cyclic[i])
}

/// A walk from `cyclic[c]`, or none when it was already listed, extends what
/// has been reached.
proof fn lemma_reached_step(g: &DirectedGraph, cyclic: Seq<usize>, c: int, o0: Seq<usize>, o1: Seq<usize>)
    requires
        0 <= c < cyclic.len(),
        reached_from(g, cyclic, c, o0),
        o0.len() <= o1.len(),
        o1.take(o0.len() as int) == o0,
        forall|k: int| o0.len() <= k < o1.len() ==> reaches(g, cyclic[c], #[trigger] o1[k]),
        forall|x: usize, y: usize| o1.contains(x) && #[trigger] g.edge(x as int, y as int) ==> o1.contains(y),
        o1.contains(cyclic[c]),
    ensures
        reached_from(g, cyclic, c + 1, o1),
{
    reveal(reached_from);
    assert forall|k: int| 0 <= k < o1.len() implies #[trigger] reached_by_some(g, cyclic, c + 1, o1[k]) by {
        if k < o0.len() {
            assert(o1[k] == o1.take(o0.len() as int)[k]);
            assert(reached_by_some(g, cyclic, c, o0[k]));
            let i = choose|i: int| 0 <= i < c && #[trigger] reaches(g, cyclic[i], o0[k]);
            assert(reaches(g, cyclic[i], o1[k]));
        } else {
            assert(reaches(g, cyclic[c], o1[k]));
        }
    }
    assert forall|i: int| 0 <= i < c + 1 implies o1.contains(#[trigger] cyclic[i]) by {
        if i < c {
            assert(o0.contains(cyclic[i]));
            let k = choose|k: int| 0 <= k < o0.len() && o0[k] == cyclic[i];
            assert(o1.take(o0.len() as int)[k] == cyclic[i]);
        }
    }
}

/// Before any walk nothing is listed.
proof fn lemma_reached_none(g: &DirectedGraph, cyclic: Seq<usize>)
    ensures
        reached_from(g, cyclic, 0, Seq::empty()),
{
    reveal(reached_from);
}

/// What the walks from every node of `cyclic` have listed.
proof fn lemma_reached_all(g: &DirectedGraph, cyclic: Seq<usize>, order: Seq<usize>)
    requires
        reached_from(g, cyclic, cyclic.len() as int, order),
    ensures
        forall|x: usize| x < g.n() ==> (order.contains(x)
            <==> exists|cc: usize| cyclic.contains(cc) && #[trigger] reaches(g, cc, x)),
{
    reveal(reached_from);
    let inside = |a: usize| order.contains(a);
    assert forall|a: usize, b: usize| inside(a) && #[trigger] g.edge(a as int, b as int) implies inside(b) by {}
    assert forall|x: usize| x < g.n() implies (order.contains(x)
        <==> exists|cc: usize| cyclic.contains(cc) && #[trigger] reaches(g, cc, x)) by {
        if order.contains(x) {
            let k = choose|k: int| 0 <= k < order.len() && order[k] == x;
            assert(reached_by_some(g, cyclic, cyclic.len() as int, order[k]));
            let i = choose|i: int| 0 <= i < cyclic.len() && #[trigger] reaches(g, cyclic[i], order[k]);
            assert(cyclic.contains(cyclic[i]));
        }
        if exists|cc: usize| cyclic.contains(cc) && #[trigger] reaches(g, cc, x) {
            let cc = choose|cc: usize| cyclic.contains(cc) && #[trigger] reaches(g, cc, x);
            let i = choose|i: int| 0 <= i < cyclic.len() && cyclic[i] == cc;
            assert(order.contains(cyclic[i]));
            lemma_closed_reach(g, inside, cc, x);
        }
    }
}

/// The closure part of what has been reached.
proof fn lemma_reached_closed(g: &DirectedGraph, cyclic: Seq<usize>, c: int, order: Seq<usize>)
    requires
        reached_from(g, cyclic, c, order),
    ensures
        forall|x: usize, y: usize| order.contains(x) && #[trigger] g.edge(x as int, y as int) ==> order.contains(y),
{
    reveal(reached_from);
}

/// The order used for a graph with a cycle: depth-first walks from the nodes
/// of `starts` in turn, which list exactly the nodes reached from them, then
/// the other nodes in increasing index order.
pub open spec fn fallback_shape(g: &DirectedGraph, starts: Seq<usize>, order: Seq<usize>) -> bool {
    exists|p: int| #[trigger] depth_first_prefix(g, starts, order, p)
        && (forall|x: usize| x < g.n() ==> ((#[trigger] order.take(p)).contains(x)
            <==> exists|c: usize| starts.contains(c) && #[trigger] reaches(g, c, x)))
        && (forall|a: int, b: int| p <= a < b < order.len() ==> order[a] < order[b])
}

/// An edge after a route extends it.
proof fn lemma_reaches_prepend_edge(g: &DirectedGraph, a: usize, u: usize, w: usize)
    requires
        reaches(g, a, u),
        g.edge(u as int, w as int),
    ensures
        reaches(g, a, w),
{
    lemma_edge_reaches(g, u, w);
    lemma_reaches_trans(g, a, u, w);
}

/// Marking and listing an unmarked node keeps the walk state.
proof fn lemma_walk_push(n: int, visited: Seq<bool>, order: Seq<usize>, u: usize)
    requires
        walk_state(n, visited, order),
        u < n,
        n <= usize::MAX,
        !visited[u as int],
    ensures
        walk_state(n, visited.update(u as int, true), order.push(u)),
{
    let o2 = order.push(u);
    assert forall|a: int, b: int| 0 <= a < b < o2.len() implies o2[a] != o2[b] by {
        if b == order.len() {
            assert(order[a] != u) by {
                if order[a] == u { assert(order.contains(u)); }
            }
        }
    }
    assert forall|x: usize| x < n implies (#[trigger] visited.update(u as int, true)[x as int] <==> o2.contains(x)) by {
        if o2.contains(x) && x != u {
            let k = choose|k: int| 0 <= k < o2.len() && o2[k] == x;
            assert(order[k] == x);
        }
        if order.contains(x) {
            let k = choose|k: int| 0 <= k < order.len() && order[k] == x;
            assert(o2[k] == x);
        }
        if x == u {
            assert(o2[order.len() as int] == u);
        }
    }
    crate::graph::facts::lemma_distinct_below(o2, n as nat);
}

/// A route of a protection signal that begins with a given prefix: a walk
/// without repeated nodes that ends at `end` and has fewer than 64 nodes.
pub open spec fn is_route_to(g: &DirectedGraph, p: Seq<usize>, end: usize) -> bool {
    &&& is_walk(g, p)
    &&& p.no_duplicates()
    &&& p.last() == end
    &&& p.len() < 64
}

/// A route from `start` to `end`.
pub open spec fn is_route(g: &DirectedGraph, p: Seq<usize>, start: usize, end: usize) -> bool {
    is_route_to(g, p, end) && p[0] == start
}

/// `p` begins with `prefix`.
pub open spec fn extends(prefix: Seq<usize>, p: Seq<usize>) -> bool {
    prefix.len() <= p.len() && p.subrange(0, prefix.len() as int) == prefix
}

/// `p` is one of `rs` at a position from `from` on.
pub open spec fn covered(rs: Seq<Seq<usize>>, from: int, p: Seq<usize>) -> bool {
    exists|m: int| 0 <= m && from <= m < rs.len() && #[trigger] rs[m] == p
}

/// `rs2` keeps `rs1` as its beginning.
pub open spec fn keeps(rs1: Seq<Seq<usize>>, rs2: Seq<Seq<usize>>) -> bool {
    rs1.len() <= rs2.len() && forall|k: int| 0 <= k < rs1.len() ==> #[trigger] rs2[k] == rs1[k]
}

/// The label `IED/access point` of node `v`.
pub open spec fn node_label(g: &DirectedGraph, v: int) -> Seq<char> {
    label(g.nodes@[v].ied_name@, g.nodes@[v].ap_name@)
}

/// The sum of the delays of the nodes of `p`.
pub open spec fn path_delay(profiles: Seq<DelayProfile>, p: Seq<usize>) -> nat
    decreases p.len(),
{
    if p.len() == 0 {
        0
    } else {
        path_delay(profiles, p.drop_last()) + profiles[p.last() as int].spec_total()
    }
}

/// `tp` describes the node list `p`: the labels, the per-node delays and
/// their sum, and neither flag set.
pub open spec fn describes(tp: TimingPath, g: &DirectedGraph, profiles: Seq<DelayProfile>, p: Seq<usize>) -> bool {
    &&& tp.nodes@.len() == p.len()
    &&& forall|i: int| 0 <= i < p.len() ==> #[trigger] tp.nodes@[i]@ == node_label(g, p[i] as int)
    &&& tp.total_delay_us == path_delay(profiles, p)
    &&& tp.per_node_delays@.len() == p.len()
    &&& forall|i: int| 0 <= i < p.len() ==> (#[trigger] tp.per_node_delays@[i]).0@ == node_label(g, p[i] as int)
        && tp.per_node_delays@[i].1 == profiles[p[i] as int]
        && tp.per_node_delays@[i].2 == profiles[p[i] as int].spec_total()
    &&& !tp.is_critical
    &&& !tp.exceeds_threshold
}


/// `tp` describes some route from `start` to `end`.
pub open spec fn describes_route(g: &DirectedGraph, profiles: Seq<DelayProfile>, start: usize, end: usize, tp: TimingPath) -> bool {
    exists|p: Seq<usize>| is_route(g, p, start, end) && #[trigger] describes(tp, g, profiles, p)
}

/// Growing a list keeps what was covered.
proof fn lemma_covered_grow(rs1: Seq<Seq<usize>>, rs2: Seq<Seq<usize>>, from: int, p: Seq<usize>)
    requires
        keeps(rs1, rs2),
        covered(rs1, from, p),
    ensures
        covered(rs2, from, p),
{
    let m = choose|m: int| 0 <= m && from <= m < rs1.len() && #[trigger] rs1[m] == p;
    assert(rs1[m] == p);
    assert(rs2[m] == rs1[m]);
    assert(rs2[m] == p);
}

/// Path delays of prefixes grow with the prefix and stay within the bound.
proof fn lemma_path_delay_bound(profiles: Seq<DelayProfile>, p: Seq<usize>)
    requires
        profiles_bounded(profiles),
        forall|i: int| 0 <= i < p.len() ==> #[trigger] p[i] < profiles.len(),
    ensures
        path_delay(profiles, p) <= 1_000_000 * p.len(),
    decreases p.len(),
{
    if p.len() > 0 {
        lemma_path_delay_bound(profiles, p.drop_last());
        assert(p[p.len() - 1] < profiles.len());
    }
}

/// Keeping is transitive.
proof fn lemma_keeps_trans(a: Seq<Seq<usize>>, b: Seq<Seq<usize>>, c: Seq<Seq<usize>>)
    requires
        keeps(a, b),
        keeps(b, c),
    ensures
        keeps(a, c),
{
    assert forall|k: int| 0 <= k < a.len() implies #[trigger] c[k] == a[k] by {
        assert(b[k] == a[k]);
    }
}

/// The routes found below `path0` stay distinct when the routes through one
/// more out-neighbour `targets[k]` are appended: those all continue with
/// `targets[k]`, the earlier ones with a later neighbour.
proof fn lemma_explore_distinct(
    rs1: Seq<Seq<usize>>,
    rs2: Seq<Seq<usize>>,
    from: int,
    path0: Seq<usize>,
    targets: Seq<usize>,
    k: int,
)
    requires
        keeps(rs1, rs2),
        0 <= from <= rs1.len(),
        0 <= k < targets.len(),
        targets.no_duplicates(),
        rs1.subrange(from, rs1.len() as int).no_duplicates(),
        rs2.subrange(rs1.len() as int, rs2.len() as int).no_duplicates(),
        forall|m: int| #![trigger rs1[m]] from <= m < rs1.len() ==> rs1[m].len() > path0.len()
            && targets.subrange(k + 1, targets.len() as int).contains(rs1[m][path0.len() as int]),
        forall|m: int| #![trigger rs2[m]] rs1.len() <= m < rs2.len() ==> extends(path0.push(targets[k]), rs2[m]),
    ensures
        rs2.subrange(from, rs2.len() as int).no_duplicates(),
        forall|m: int| #![trigger rs2[m]] from <= m < rs2.len() ==> rs2[m].len() > path0.len()
            && targets.subrange(k, targets.len() as int).contains(rs2[m][path0.len() as int]),
{
    let q = path0.push(targets[k]);
    let d = path0.len() as int;
    assert forall|m: int| #![trigger rs2[m]] from <= m < rs2.len() implies rs2[m].len() > path0.len()
        && targets.subrange(k, targets.len() as int).contains(rs2[m][d]) by {
        if m < rs1.len() {
            assert(rs2[m] == rs1[m]);
            let x = choose|x: int| 0 <= x < targets.subrange(k + 1, targets.len() as int).len()
                && #[trigger] targets.subrange(k + 1, targets.len() as int)[x] == rs1[m][d];
            assert(targets.subrange(k, targets.len() as int)[x + 1] == rs1[m][d]);
        } else {
            assert(extends(q, rs2[m]));
            assert(rs2[m].subrange(0, q.len() as int)[d] == q[d]);
            assert(targets.subrange(k, targets.len() as int)[0] == targets[k]);
        }
    }
    let s2 = rs2.subrange(from, rs2.len() as int);
    assert forall|i: int, j: int| 0 <= i < j < s2.len() implies s2[i] != s2[j] by {
        let mi = from + i;
        let mj = from + j;
        assert(s2[i] == rs2[mi] && s2[j] == rs2[mj]);
        if mj < rs1.len() {
            assert(rs2[mi] == rs1[mi] && rs2[mj] == rs1[mj]);
            assert(rs1.subrange(from, rs1.len() as int)[i] == rs1[mi]);
            assert(rs1.subrange(from, rs1.len() as int)[j] == rs1[mj]);
        } else if mi >= rs1.len() {
            assert(rs2.subrange(rs1.len() as int, rs2.len() as int)[mi - rs1.len()] == rs2[mi]);
            assert(rs2.subrange(rs1.len() as int, rs2.len() as int)[mj - rs1.len()] == rs2[mj]);
        } else {
            assert(rs2[mi] == rs1[mi]);
            let x = choose|x: int| 0 <= x < targets.subrange(k + 1, targets.len() as int).len()
                && #[trigger] targets.subrange(k + 1, targets.len() as int)[x] == rs1[mi][d];
            assert(targets[k + 1 + x] == rs1[mi][d]);
            assert(extends(q, rs2[mj]));
            assert(rs2[mj].subrange(0, q.len() as int)[d] == q[d]);
            assert(rs2[mj][d] == targets[k]);
            if rs2[mi] == rs2[mj] {
                assert(targets[k + 1 + x] == targets[k]);
            }
        }
    }
}

/// A copy of a list of node indices.
pub fn copy_indices(v: &Vec<usize>) -> (r: Vec<usize>)
    ensures
        r@ == v@,
{
    let mut out: Vec<usize> = Vec::new();
    let mut i: usize = 0;
    while i < v.len()
        invariant
            i <= v@.len(),
            out@ == v@.take(i as int),
        decreases v@.len() - i,
    {
        out.push(v[i]);
        proof { assert(out@ =~= v@.take(i + 1)); }
        i = i + 1;
    }
    proof { assert(v@.take(i as int) =~= v@); }
    out
}

/// The sum of the delays of the nodes of a route.
fn route_delay(profiles: &Vec<DelayProfile>, p: &Vec<usize>) -> (t: u64)
    requires
        profiles_bounded(profiles@),
        p@.len() < 64,
        forall|i: int| 0 <= i < p@.len() ==> #[trigger] p@[i] < profiles@.len(),
    ensures
        t == path_delay(profiles@, p@),
{
    let mut total: u64 = 0;
    let mut i: usize = 0;
    while i < p.len()
        invariant
            profiles_bounded(profiles@),
            p@.len() < 64,
            forall|k: int| 0 <= k < p@.len() ==> #[trigger] p@[k] < profiles@.len(),
            i <= p@.len(),
            total == path_delay(profiles@, p@.take(i as int)),
            total <= 1_000_000 * i,
        decreases p@.len() - i,
    {
        let prof = &profiles[p[i]];
        proof {
            assert(p@.take(i + 1).drop_last() =~= p@.take(i as int));
            assert(p@.take(i + 1).last() == p@[i as int]);
            assert(prof.spec_total() <= 1_000_000);
        }
        total = total + prof.total_us();
        i = i + 1;
    }
    proof { assert(p@.take(i as int) =~= p@); }
    total
}

/// The description of a route: labels, per-node delays and their sum.
fn make_timing_path(graph: &DirectedGraph, profiles: &Vec<DelayProfile>, p: &Vec<usize>) -> (tp: TimingPath)
    requires
        graph.wf(),
        profiles@.len() == graph.n(),
        profiles_bounded(profiles@),
        p@.len() < 64,
        forall|i: int| 0 <= i < p@.len() ==> #[trigger] p@[i] < graph.n(),
    ensures
        describes(tp, graph, profiles@, p@),
{
    let total = route_delay(profiles, p);
    let mut nodes: Vec<String> = Vec::new();
    let mut per_node: Vec<(String, DelayProfile, u64)> = Vec::new();
    let mut i: usize = 0;
    while i < p.len()
        invariant
            graph.wf(),
            profiles@.len() == graph.n(),
            profiles_bounded(profiles@),
            forall|k: int| 0 <= k < p@.len() ==> #[trigger] p@[k] < graph.n(),
            i <= p@.len(),
            nodes@.len() == i,
            per_node@.len() == i,
            forall|k: int| 0 <= k < i ==> #[trigger] nodes@[k]@ == node_label(graph, p@[k] as int),
            forall|k: int| 0 <= k < i ==> (#[trigger] per_node@[k]).0@ == node_label(graph, p@[k] as int)
                && per_node@[k].1 == profiles@[p@[k] as int]
                && per_node@[k].2 == profiles@[p@[k] as int].spec_total(),
        decreases p@.len() - i,
    {
        let v = p[i];
        let node = &graph.nodes[v];
        let name = make_label(&node.ied_name, &node.ap_name);
        let name2 = make_label(&node.ied_name, &node.ap_name);
        let prof = profiles[v];
        proof { assert(profiles@[v as int].spec_total() <= 1_000_000); }
        let t = prof.total_us();
        nodes.push(name);
        per_node.push((name2, prof, t));
        i = i + 1;
    }
    TimingPath { nodes, total_delay_us: total, per_node_delays: per_node, is_critical: false, exceeds_threshold: false }
}

/// The positions `0..totals.len()` ordered by decreasing total; positions
/// with equal totals keep their order.
pub fn sort_by_total_desc(totals: &Vec<u64>) -> (order: Vec<usize>)
    ensures
        order@.len() == totals@.len(),
        order@.no_duplicates(),
        forall|k: int| 0 <= k < order@.len() ==> #[trigger] order@[k] < totals@.len(),
        forall|x: usize| x < totals@.len() ==> #[trigger] order@.contains(x),
        forall|a: int, b: int| 0 <= a < b < order@.len() ==>
            totals@[#[trigger] order@[a] as int] >= totals@[#[trigger] order@[b] as int],
        forall|a: int, b: int| 0 <= a < b < order@.len() && totals@[order@[a] as int] == totals@[order@[b] as int]
            ==> #[trigger] order@[a] < #[trigger] order@[b],
{
    let mut order: Vec<usize> = Vec::new();
    let mut i: usize = 0;
    while i < totals.len()
        invariant
            i <= totals@.len(),
            order@.len() == i,
            order@.no_duplicates(),
            forall|k: int| 0 <= k < order@.len() ==> #[trigger] order@[k] < i,
            forall|x: usize| x < i ==> #[trigger] order@.contains(x),
            forall|a: int, b: int| 0 <= a < b < order@.len() ==>
                totals@[#[trigger] order@[a] as int] >= totals@[#[trigger] order@[b] as int],
            forall|a: int, b: int| 0 <= a < b < order@.len() && totals@[order@[a] as int] == totals@[order@[b] as int]
                ==> #[trigger] order@[a] < #[trigger] order@[b],
        decreases totals@.len() - i,
    {
        let t = totals[i];
        let mut pos: usize = 0;
        while pos < order.len() && totals[order[pos]] >= t
            invariant
                i < totals@.len(),
                t == totals@[i as int],
                pos <= order@.len(),
                order@.len() == i,
                forall|k: int| 0 <= k < order@.len() ==> #[trigger] order@[k] < i,
                forall|k: int| 0 <= k < pos ==> totals@[#[trigger] order@[k] as int] >= t,
            decreases order@.len() - pos,
        {
            pos = pos + 1;
        }
        let ghost o0 = order@;
        order.insert(pos, i);
        proof {
            let o1 = order@;
            assert(o1 =~= o0.insert(pos as int, i));
            assert forall|k: int| 0 <= k < o1.len() implies #[trigger] o1[k] < i + 1 by {
                if k < pos { assert(o1[k] == o0[k]); } else if k > pos { assert(o1[k] == o0[k - 1]); }
            }
            assert forall|x: usize| x < i + 1 implies #[trigger] o1.contains(x) by {
                if x == i {
                    assert(o1[pos as int] == i);
                } else {
                    assert(o0.contains(x));
                    let k = choose|k: int| 0 <= k < o0.len() && o0[k] == x;
                    if k < pos { assert(o1[k] == x); } else { assert(o1[k + 1] == x); }
                }
            }
            assert forall|a: int, b: int| 0 <= a < b < o1.len() implies o1[a] != o1[b] by {
                if a != pos && b != pos {
                    let a0 = if a < pos { a } else { a - 1 };
                    let b0 = if b < pos { b } else { b - 1 };
                    assert(o1[a] == o0[a0] && o1[b] == o0[b0]);
                } else if a == pos {
                    let b0 = b - 1;
                    assert(o1[b] == o0[b0]);
                } else {
                    assert(o1[a] == o0[a]);
                }
            }
            assert forall|a: int, b: int| 0 <= a < b < o1.len() implies
                totals@[#[trigger] o1[a] as int] >= totals@[#[trigger] o1[b] as int] by {
                if a != pos && b != pos {
                    let a0 = if a < pos { a } else { a - 1 };
                    let b0 = if b < pos { b } else { b - 1 };
                    assert(o1[a] == o0[a0] && o1[b] == o0[b0]);
                } else if a == pos {
                    assert(o1[b] == o0[b - 1]);
                    if pos < o0.len() {
                        assert(totals@[o0[pos as int] as int] < t);
                        if b - 1 > pos {
                            assert(totals@[o0[pos as int] as int] >= totals@[o0[b - 1] as int]);
                        }
                    }
                } else {
                    assert(o1[a] == o0[a]);
                }
            }
            assert forall|a: int, b: int| 0 <= a < b < o1.len() && totals@[o1[a] as int] == totals@[o1[b] as int]
                implies #[trigger] o1[a] < #[trigger] o1[b] by {
                if a != pos && b != pos {
                    let a0 = if a < pos { a } else { a - 1 };
                    let b0 = if b < pos { b } else { b - 1 };
                    assert(o1[a] == o0[a0] && o1[b] == o0[b0]);
                } else if a == pos {
                    assert(o1[b] == o0[b - 1]);
                    if pos < o0.len() {
                        assert(totals@[o0[pos as int] as int] < t);
                        if b - 1 > pos {
                            assert(totals@[o0[pos as int] as int] >= totals@[o0[b - 1] as int]);
                        }
                    }
                } else {
                    assert(o1[a] == o0[a]);
                }
            }
        }
        i = i + 1;
    }
    order
}

/// Where `p` and `q` first part, `p` goes on to a later out-neighbour of
/// their last common node than `q` does: the search, which tries the
/// out-neighbours of a node from the last to the first, meets `p` first.
pub open spec fn search_before(g: &DirectedGraph, p: Seq<usize>, q: Seq<usize>) -> bool {
    exists|d: int| 0 < d < p.len() && d < q.len() && #[trigger] p.subrange(0, d) == q.subrange(0, d)
        && g.adj(p[d - 1] as int).index_of(p[d]) > g.adj(p[d - 1] as int).index_of(q[d])
}

/// Two walks that continue `path0` with the out-neighbours `k1 > k2` of its
/// last node are met by the search in that order.
proof fn lemma_search_split(
    g: &DirectedGraph,
    path0: Seq<usize>,
    targets: Seq<usize>,
    k1: int,
    k2: int,
    p: Seq<usize>,
    q: Seq<usize>,
)
    requires
        path0.len() > 0,
        targets == g.adj(path0.last() as int),
        targets.no_duplicates(),
        0 <= k2 < k1 < targets.len(),
        p.len() > path0.len(),
        extends(path0, p),
        p[path0.len() as int] == targets[k1],
        q.len() > path0.len(),
        extends(path0, q),
        q[path0.len() as int] == targets[k2],
    ensures
        search_before(g, p, q),
{
    let d = path0.len() as int;
    assert(p.subrange(0, d) == q.subrange(0, d));
    assert(p.subrange(0, d)[d - 1] == p[d - 1]);
    assert(p[d - 1] == path0.last());
    assert(targets.index_of(targets[k1]) == k1);
    assert(targets.index_of(targets[k2]) == k2);
}

/// Two sequences that agree below `i` agree below the first position where
/// they differ, or below the end of the shorter one.
proof fn lemma_first_difference(p: Seq<usize>, q: Seq<usize>, i: int) -> (d: int)
    requires
        0 <= i <= p.len(),
        i <= q.len(),
        p.subrange(0, i) == q.subrange(0, i),
    ensures
        i <= d <= p.len(),
        d <= q.len(),
        p.subrange(0, d) == q.subrange(0, d),
        d == p.len() || d == q.len() || p[d] != q[d],
    decreases p.len() - i,
{
    if i == p.len() || i == q.len() || p[i] != q[i] {
        i
    } else {
        assert(p.subrange(0, i + 1) =~= p.subrange(0, i).push(p[i]));
        assert(q.subrange(0, i + 1) =~= q.subrange(0, i).push(q[i]));
        lemma_first_difference(p, q, i + 1)
    }
}

/// Of two different routes joining the same two nodes, the search meets
/// exactly one first.
pub proof fn lemma_search_order_total(g: &DirectedGraph, start: usize, end: usize, p: Seq<usize>, q: Seq<usize>)
    requires
        g.wf(),
        is_route(g, p, start, end),
        is_route(g, q, start, end),
        p != q,
    ensures
        search_before(g, p, q) != search_before(g, q, p),
{
    assert(p.subrange(0, 1) =~= q.subrange(0, 1)) by {
        assert(p.subrange(0, 1)[0] == p[0]);
        assert(q.subrange(0, 1)[0] == q[0]);
    }
    let d = lemma_first_difference(p, q, 1);
    if d == p.len() {
        if d == q.len() {
            assert(p =~= p.subrange(0, d));
            assert(q =~= q.subrange(0, d));
        } else {
            assert(p.subrange(0, d)[d - 1] == q.subrange(0, d)[d - 1]);
            assert(q[d - 1] == end);
            assert(q[q.len() - 1] == end);
        }
        assert(false);
    } else if d == q.len() {
        assert(p.subrange(0, d)[d - 1] == q.subrange(0, d)[d - 1]);
        assert(p[d - 1] == end);
        assert(p[p.len() - 1] == end);
        assert(false);
    } else {
        let x = p[d - 1];
        assert(p.subrange(0, d)[d - 1] == q.subrange(0, d)[d - 1]);
        assert(q[d - 1] == x);
        let i = d - 1;
        assert(g.edge(p[i] as int, p[i + 1] as int));
        assert(g.edge(q[i] as int, q[i + 1] as int));
        let a = g.adj(x as int);
        let ip = a.index_of(p[d]);
        let iq = a.index_of(q[d]);
        assert(a[ip] == p[d] && a[iq] == q[d]);
        assert(ip != iq);
        if ip > iq {
            assert(search_before(g, p, q));
        } else {
            assert(search_before(g, q, p));
        }
    }
    assert(!(search_before(g, p, q) && search_before(g, q, p))) by {
        if search_before(g, p, q) && search_before(g, q, p) {
            let d1 = choose|d: int| 0 < d < p.len() && d < q.len() && #[trigger] p.subrange(0, d) == q.subrange(0, d)
                && g.adj(p[d - 1] as int).index_of(p[d]) > g.adj(p[d - 1] as int).index_of(q[d]);
            let d2 = choose|d: int| 0 < d < q.len() && d < p.len() && #[trigger] q.subrange(0, d) == p.subrange(0, d)
                && g.adj(q[d - 1] as int).index_of(q[d]) > g.adj(q[d - 1] as int).index_of(p[d]);
            assert(p.subrange(0, d1)[d1 - 1] == q.subrange(0, d1)[d1 - 1]);
            if d1 < d2 {
                assert(q.subrange(0, d2)[d1] == p.subrange(0, d2)[d1]);
            } else if d2 < d1 {
                assert(p.subrange(0, d1)[d2] == q.subrange(0, d1)[d2]);
            }
        }
    }
}

/// The routes `ps` are in search order wherever their delays in `tps` tie.
pub open spec fn ties_in_search_order(g: &DirectedGraph, ps: Seq<Seq<usize>>, tps: Seq<TimingPath>) -> bool {
    forall|a: int, b: int| 0 <= a < b < ps.len() && (#[trigger] tps[a]).total_delay_us == (#[trigger] tps[b]).total_delay_us
        ==> search_before(g, ps[a], ps[b])
}

/// `tps` describes, one to one and in order, the routes `ps` from `start` to
/// `end`; `ps` holds every such route, each once.
pub open spec fn route_listing(
    g: &DirectedGraph,
    profiles: Seq<DelayProfile>,
    start: usize,
    end: usize,
    ps: Seq<Seq<usize>>,
    tps: Seq<TimingPath>,
) -> bool {
    &&& ps.len() == tps.len()
    &&& ps.no_duplicates()
    &&& forall|k: int| 0 <= k < ps.len() ==> is_route(g, #[trigger] ps[k], start, end) && describes(tps[k], g, profiles, ps[k])
    &&& forall|p: Seq<usize>| #[trigger] is_route(g, p, start, end) ==> ps.contains(p)
    &&& ties_in_search_order(g, ps, tps)
}

/// The routes found, taken in the sorted order, are listed one to one.
proof fn lemma_found_listing(
    graph: &DirectedGraph,
    profiles: Seq<DelayProfile>,
    start: usize,
    end: usize,
    rs: Seq<Seq<usize>>,
    totals: Seq<u64>,
    order: Seq<usize>,
    tps: Seq<TimingPath>,
)
    requires
        rs.no_duplicates(),
        forall|m1: int, m2: int| 0 <= m1 < m2 < rs.len() ==> search_before(graph, #[trigger] rs[m1], #[trigger] rs[m2]),
        totals.len() == rs.len(),
        forall|k: int| 0 <= k < rs.len() ==> #[trigger] totals[k] == path_delay(profiles, rs[k]),
        forall|a: int, b: int| 0 <= a < b < order.len() && totals[order[a] as int] == totals[order[b] as int]
            ==> #[trigger] order[a] < #[trigger] order[b],
        forall|k: int| 0 <= k < rs.len() ==> #[trigger] is_route(graph, rs[k], start, end),
        forall|p: Seq<usize>| #[trigger] is_route(graph, p, start, end) ==> covered(rs, 0, p),
        order.len() == rs.len(),
        order.no_duplicates(),
        forall|k: int| 0 <= k < order.len() ==> #[trigger] order[k] < rs.len(),
        forall|x: usize| x < rs.len() ==> #[trigger] order.contains(x),
        tps.len() == order.len(),
        rs.len() <= usize::MAX,
        forall|k: int| 0 <= k < tps.len() ==> #[trigger] describes(tps[k], graph, profiles, rs[order[k] as int]),
    ensures
        route_listing(graph, profiles, start, end, order.map_values(|i: usize| rs[i as int]), tps),
{
    let ps = order.map_values(|i: usize| rs[i as int]);
    assert forall|k: int| 0 <= k < ps.len() implies is_route(graph, #[trigger] ps[k], start, end)
        && describes(tps[k], graph, profiles, ps[k]) by {
        assert(ps[k] == rs[order[k] as int]);
    }
    assert forall|a: int, b: int| 0 <= a < b < ps.len() implies ps[a] != ps[b] by {
        assert(ps[a] == rs[order[a] as int] && ps[b] == rs[order[b] as int]);
        assert(order[a] != order[b]);
    }
    assert forall|p: Seq<usize>| #[trigger] is_route(graph, p, start, end) implies ps.contains(p) by {
        assert(covered(rs, 0, p));
        let m = choose|m: int| 0 <= m && 0 <= m < rs.len() && #[trigger] rs[m] == p;
        assert(order.contains(m as usize));
        let q = choose|q: int| 0 <= q < order.len() && order[q] == m as usize;
        assert(ps[q] == p);
    }
    assert forall|a: int, b: int| 0 <= a < b < ps.len() && (#[trigger] tps[a]).total_delay_us == (#[trigger] tps[b]).total_delay_us
        implies search_before(graph, ps[a], ps[b]) by {
        assert(describes(tps[a], graph, profiles, rs[order[a] as int]));
        assert(describes(tps[b], graph, profiles, rs[order[b] as int]));
        assert(totals[order[a] as int] == totals[order[b] as int]);
        assert(order[a] < order[b]);
        assert(ps[a] == rs[order[a] as int] && ps[b] == rs[order[b] as int]);
    }
}


/// What the search and the sort give, stated over the described paths.
proof fn lemma_found_paths(
    graph: &DirectedGraph,
    profiles: Seq<DelayProfile>,
    start: usize,
    end: usize,
    rs: Seq<Seq<usize>>,
    totals: Seq<u64>,
    order: Seq<usize>,
    ps: Seq<TimingPath>,
)
    requires
        forall|k: int| 0 <= k < rs.len() ==> #[trigger] is_route(graph, rs[k], start, end),
        forall|p: Seq<usize>| #[trigger] is_route(graph, p, start, end) ==> covered(rs, 0, p),
        totals.len() == rs.len(),
        forall|k: int| 0 <= k < rs.len() ==> #[trigger] totals[k] == path_delay(profiles, rs[k]),
        order.len() == totals.len(),
        forall|k: int| 0 <= k < order.len() ==> #[trigger] order[k] < totals.len(),
        forall|x: usize| x < totals.len() ==> #[trigger] order.contains(x),
        forall|a: int, b: int| 0 <= a < b < order.len() ==>
            totals[#[trigger] order[a] as int] >= totals[#[trigger] order[b] as int],
        ps.len() == order.len(),
        totals.len() <= usize::MAX,
        forall|k: int| 0 <= k < ps.len() ==> #[trigger] describes(ps[k], graph, profiles, rs[order[k] as int]),
    ensures
        forall|k: int| 0 <= k < ps.len() ==> #[trigger] describes_route(graph, profiles, start, end, ps[k]),
        forall|p: Seq<usize>| #[trigger] is_route(graph, p, start, end) ==> exists|k: int|
            0 <= k < ps.len() && #[trigger] describes(ps[k], graph, profiles, p),
        forall|a: int, b: int| 0 <= a < b < ps.len() ==>
            (#[trigger] ps[a]).total_delay_us >= (#[trigger] ps[b]).total_delay_us,
{
    assert forall|k: int| 0 <= k < ps.len() implies #[trigger] describes_route(graph, profiles, start, end, ps[k]) by {
        assert(describes(ps[k], graph, profiles, rs[order[k] as int]));
        assert(is_route(graph, rs[order[k] as int], start, end));
    }
    assert forall|p: Seq<usize>| #[trigger] is_route(graph, p, start, end) implies exists|k: int|
        0 <= k < ps.len() && #[trigger] describes(ps[k], graph, profiles, p) by {
        assert(covered(rs, 0, p));
        let m = choose|m: int| 0 <= m && 0 <= m < rs.len() && #[trigger] rs[m] == p;
        assert(order.contains(m as usize));
        let k = choose|k: int| 0 <= k < order.len() && order[k] == m as usize;
        assert(describes(ps[k], graph, profiles, rs[order[k] as int]));
    }
    assert forall|a: int, b: int| 0 <= a < b < ps.len() implies
        (#[trigger] ps[a]).total_delay_us >= (#[trigger] ps[b]).total_delay_us by {
        assert(describes(ps[a], graph, profiles, rs[order[a] as int]));
        assert(describes(ps[b], graph, profiles, rs[order[b] as int]));
        assert(totals[order[a] as int] >= totals[order[b] as int]);
    }
}

/// The contents of a timing path, its texts taken by their characters.
pub type PathView = (Seq<Seq<char>>, u64, Seq<(Seq<char>, DelayProfile, u64)>, bool, bool);

/// The contents of a timing path.
pub open spec fn path_view(tp: TimingPath) -> PathView {
    (
        tp.nodes@.map_values(|s: String| s@),
        tp.total_delay_us,
        tp.per_node_delays@.map_values(|e: (String, DelayProfile, u64)| (e.0@, e.1, e.2)),
        tp.is_critical,
        tp.exceeds_threshold,
    )
}

/// The contents of a list of timing paths.
pub open spec fn path_views(ps: Seq<TimingPath>) -> Seq<PathView> {
    ps.map_values(|tp: TimingPath| path_view(tp))
}

/// A path whose total delay is above `threshold_us`.
pub open spec fn over_threshold(v: PathView, threshold_us: u64) -> bool {
    v.1 > threshold_us
}

/// How serious an excess (in microseconds) over the threshold is.
pub open spec fn severity_for(excess: int) -> ViolationSeverity {
    if excess > 5000 {
        ViolationSeverity::Critical
    } else if excess > 2000 {
        ViolationSeverity::High
    } else {
        ViolationSeverity::Medium
    }
}

/// An excess of more than 5000 microseconds is critical, one of more than
/// 2000 up to 5000 is high, and any smaller one is medium; no excess is low.
pub proof fn lemma_severity_bands(excess: int)
    ensures
        (severity_for(excess) == ViolationSeverity::Critical) <==> excess > 5000,
        (severity_for(excess) == ViolationSeverity::High) <==> 2000 < excess <= 5000,
        (severity_for(excess) == ViolationSeverity::Medium) <==> excess <= 2000,
        severity_for(excess) != ViolationSeverity::Low,
{
}

/// The critical paths are the paths over the threshold, in order, and each
/// violation reports the critical path at its position, its excess and the
/// severity of that excess.
pub open spec fn violations_match(
    all: Seq<TimingPath>,
    critical: Seq<TimingPath>,
    violations: Seq<TimingViolation>,
    threshold_us: u64,
) -> bool {
    &&& path_views(critical) == path_views(all).filter(|v: PathView| over_threshold(v, threshold_us))
    &&& violations.len() == critical.len()
    &&& forall|k: int| 0 <= k < violations.len() ==> path_view((#[trigger] violations[k]).path) == path_view(critical[k])
        && critical[k].total_delay_us > threshold_us
        && violations[k].excess_us == critical[k].total_delay_us - threshold_us
        && violations[k].severity == severity_for(violations[k].excess_us as int)
}

/// Paths with the same contents describe the same routes.
proof fn lemma_same_view_describes(a: TimingPath, b: TimingPath, g: &DirectedGraph, profiles: Seq<DelayProfile>, p: Seq<usize>)
    requires
        path_view(a) == path_view(b),
        describes(a, g, profiles, p),
    ensures
        describes(b, g, profiles, p),
{
    assert(a.nodes@.len() == b.nodes@.len()) by {
        assert(a.nodes@.map_values(|s: String| s@).len() == b.nodes@.map_values(|s: String| s@).len());
    }
    assert(a.per_node_delays@.len() == b.per_node_delays@.len()) by {
        let f = |e: (String, DelayProfile, u64)| (e.0@, e.1, e.2);
        assert(path_view(a).2 == a.per_node_delays@.map_values(f));
        assert(path_view(b).2 == b.per_node_delays@.map_values(f));
        assert(a.per_node_delays@.map_values(f).len() == b.per_node_delays@.map_values(f).len());
    }
    assert forall|i: int| 0 <= i < p.len() implies #[trigger] b.nodes@[i]@ == node_label(g, p[i] as int) by {
        assert(path_view(a).0[i] == path_view(b).0[i]);
        assert(a.nodes@[i]@ == node_label(g, p[i] as int));
    }
    assert forall|i: int| 0 <= i < p.len() implies (#[trigger] b.per_node_delays@[i]).0@ == node_label(g, p[i] as int)
        && b.per_node_delays@[i].1 == profiles[p[i] as int]
        && b.per_node_delays@[i].2 == profiles[p[i] as int].spec_total() by {
        assert(path_view(a).2[i] == path_view(b).2[i]);
        assert(a.per_node_delays@[i].0@ == node_label(g, p[i] as int));
    }
}

/// A copy of a timing path.
pub fn copy_path(tp: &TimingPath) -> (r: TimingPath)
    ensures
        path_view(r) == path_view(*tp),
{
    let mut nodes: Vec<String> = Vec::new();
    let mut i: usize = 0;
    while i < tp.nodes.len()
        invariant
            i <= tp.nodes@.len(),
            nodes@.len() == i,
            forall|k: int| 0 <= k < i ==> #[trigger] nodes@[k]@ == tp.nodes@[k]@,
        decreases tp.nodes@.len() - i,
    {
        nodes.push(tp.nodes[i].clone());
        i = i + 1;
    }
    let mut per: Vec<(String, DelayProfile, u64)> = Vec::new();
    let mut j: usize = 0;
    while j < tp.per_node_delays.len()
        invariant
            j <= tp.per_node_delays@.len(),
            per@.len() == j,
            forall|k: int| 0 <= k < j ==> (#[trigger] per@[k]).0@ == tp.per_node_delays@[k].0@
                && per@[k].1 == tp.per_node_delays@[k].1 && per@[k].2 == tp.per_node_delays@[k].2,
        decreases tp.per_node_delays@.len() - j,
    {
        let e = &tp.per_node_delays[j];
        per.push((e.0.clone(), e.1, e.2));
        j = j + 1;
    }
    let r = TimingPath {
        nodes,
        total_delay_us: tp.total_delay_us,
        per_node_delays: per,
        is_critical: tp.is_critical,
        exceeds_threshold: tp.exceeds_threshold,
    };
    proof {
        assert(r.nodes@.map_values(|s: String| s@) =~= tp.nodes@.map_values(|s: String| s@));
        assert(r.per_node_delays@.map_values(|e: (String, DelayProfile, u64)| (e.0@, e.1, e.2))
            =~= tp.per_node_delays@.map_values(|e: (String, DelayProfile, u64)| (e.0@, e.1, e.2)));
    }
    r
}

/// Appends `paths` to `all`, and each of them whose delay exceeds
/// `threshold_us` to `critical` with its violation.
fn record_paths(
    paths: &Vec<TimingPath>,
    threshold_us: u64,
    all: &mut Vec<TimingPath>,
    critical: &mut Vec<TimingPath>,
    violations: &mut Vec<TimingViolation>,
)
    requires
        violations_match(old(all)@, old(critical)@, old(violations)@, threshold_us),
    ensures
        violations_match(final(all)@, final(critical)@, final(violations)@, threshold_us),
        path_views(final(all)@) == path_views(old(all)@) + path_views(paths@),
{
    let ghost all0 = path_views(all@);
    let ghost pred = |v: PathView| over_threshold(v, threshold_us);
    let mut k: usize = 0;
    proof { assert(all0 + path_views(paths@).take(0) =~= all0); }
    while k < paths.len()
        invariant
            k <= paths@.len(),
            pred == |v: PathView| over_threshold(v, threshold_us),
            violations_match(all@, critical@, violations@, threshold_us),
            path_views(all@) == all0 + path_views(paths@).take(k as int),
        decreases paths@.len() - k,
    {
        let path = &paths[k];
        let ghost a0 = all@;
        let ghost c0 = critical@;
        let ghost v0 = violations@;
        if path.total_delay_us > threshold_us {
            let excess = path.total_delay_us - threshold_us;
            let severity = if excess > 5000 {
                ViolationSeverity::Critical
            } else if excess > 2000 {
                ViolationSeverity::High
            } else {
                ViolationSeverity::Medium
            };
            violations.push(TimingViolation { path: copy_path(path), excess_us: excess, severity });
            critical.push(copy_path(path));
        }
        all.push(copy_path(path));
        proof {
            let pv = path_view(*path);
            assert(path_views(all@) =~= path_views(a0).push(pv));
            assert(all0 + path_views(paths@).take(k + 1) =~= (all0 + path_views(paths@).take(k as int)).push(pv));
            path_views(a0).lemma_filter_push(pv, pred);
            if path.total_delay_us > threshold_us {
                assert(path_views(critical@) =~= path_views(c0).push(pv));
                assert forall|q: int| 0 <= q < violations@.len() implies path_view((#[trigger] violations@[q]).path) == path_view(critical@[q])
                    && critical@[q].total_delay_us > threshold_us
                    && violations@[q].excess_us == critical@[q].total_delay_us - threshold_us
                    && violations@[q].severity == severity_for(violations@[q].excess_us as int) by {
                    if q < v0.len() {
                        assert(violations@[q] == v0[q]);
                        assert(critical@[q] == c0[q]);
                    }
                }
            } else {
                assert(!pred(pv));
            }
        }
        k = k + 1;
    }
    proof { assert(path_views(paths@).take(k as int) =~= path_views(paths@)); }
}

/// Some path of `all` describes the route `p`.
pub open spec fn listed(all: Seq<TimingPath>, g: &DirectedGraph, profiles: Seq<DelayProfile>, p: Seq<usize>) -> bool {
    exists|k: int| 0 <= k < all.len() && #[trigger] describes(all[k], g, profiles, p)
}

/// `tp` describes a route from one of `triggers` to one of `terminals`.
pub open spec fn relay_to_breaker(
    g: &DirectedGraph,
    profiles: Seq<DelayProfile>,
    triggers: Seq<usize>,
    terminals: Seq<usize>,
    tp: TimingPath,
) -> bool {
    exists|a: int, b: int| 0 <= a < triggers.len() && 0 <= b < terminals.len()
        && #[trigger] describes_route(g, profiles, triggers[a], terminals[b], tp)
}

/// A list whose contents begin with those of `old` keeps describing what
/// `old` described, at the same positions.
proof fn lemma_prefix_describes(
    old_all: Seq<TimingPath>,
    new_all: Seq<TimingPath>,
    g: &DirectedGraph,
    profiles: Seq<DelayProfile>,
    k: int,
    p: Seq<usize>,
)
    requires
        old_all.len() <= new_all.len(),
        path_views(new_all).take(old_all.len() as int) == path_views(old_all),
        0 <= k < old_all.len(),
        describes(old_all[k], g, profiles, p),
    ensures
        describes(new_all[k], g, profiles, p),
{
    assert(path_views(new_all).take(old_all.len() as int)[k] == path_views(old_all)[k]);
    lemma_same_view_describes(old_all[k], new_all[k], g, profiles, p);
}

/// The relation between what a search found and what was recorded keeps a
/// route's description.
proof fn lemma_appended_describes(
    old_all: Seq<TimingPath>,
    found: Seq<TimingPath>,
    new_all: Seq<TimingPath>,
    g: &DirectedGraph,
    profiles: Seq<DelayProfile>,
    j: int,
    p: Seq<usize>,
)
    requires
        path_views(new_all) == path_views(old_all) + path_views(found),
        0 <= j < found.len(),
        describes(found[j], g, profiles, p),
    ensures
        describes(new_all[old_all.len() + j], g, profiles, p),
        new_all.len() == old_all.len() + found.len(),
{
    assert(path_views(new_all).len() == new_all.len());
    assert((path_views(old_all) + path_views(found))[old_all.len() + j] == path_views(found)[j]);
    lemma_same_view_describes(found[j], new_all[old_all.len() + j], g, profiles, p);
}

/// The nodes picked out by `nodes_where` lie below the bound.
pub(crate) proof fn lemma_nodes_where_below(k: int, p: spec_fn(int) -> bool)
    requires
        k <= usize::MAX,
    ensures
        forall|a: int| 0 <= a < nodes_where(k, p).len() ==> 0 <= #[trigger] nodes_where(k, p)[a] < k,
    decreases k,
{
    if k > 0 {
        lemma_nodes_where_below(k - 1, p);
        let prev = nodes_where(k - 1, p);
        assert forall|a: int| 0 <= a < nodes_where(k, p).len() implies 0 <= #[trigger] nodes_where(k, p)[a] < k by {
            if p(k - 1) && a == prev.len() {
                assert(nodes_where(k, p)[a] == (k - 1) as usize);
            } else {
                assert(nodes_where(k, p)[a] == prev[a]);
            }
        }
    }
}

/// The nodes picked out by `nodes_where` are picked once each.
pub(crate) proof fn lemma_nodes_where_distinct(k: int, p: spec_fn(int) -> bool)
    requires
        k <= usize::MAX,
    ensures
        nodes_where(k, p).no_duplicates(),
    decreases k,
{
    if k > 0 {
        lemma_nodes_where_distinct(k - 1, p);
        lemma_nodes_where_below(k - 1, p);
        let prev = nodes_where(k - 1, p);
        if p(k - 1) {
            assert forall|a: int, b: int| 0 <= a < b < nodes_where(k, p).len() implies
                nodes_where(k, p)[a] != nodes_where(k, p)[b] by {
                assert(nodes_where(k, p)[a] == prev[a]);
                if b < prev.len() {
                    assert(nodes_where(k, p)[b] == prev[b]);
                }
            }
        }
    }
}

/// `p` is a route from the trigger at `a` to the terminal at `b`, for some
/// pair `(a, b)` that comes before `(ti, ei)` in row order.
pub open spec fn from_pair_before(
    g: &DirectedGraph,
    triggers: Seq<usize>,
    terminals: Seq<usize>,
    ti: int,
    ei: int,
    p: Seq<usize>,
) -> bool {
    exists|a: int, b: int| 0 <= a < triggers.len() && 0 <= b < terminals.len() && (a < ti || (a == ti && b < ei))
        && triggers[a] != terminals[b] && #[trigger] is_route(g, p, triggers[a], terminals[b])
}

/// `tps` describes, one to one and in order, the routes `ps`, which are the
/// routes joining the pairs before `(ti, ei)`, each once.
pub open spec fn listing_so_far(
    g: &DirectedGraph,
    profiles: Seq<DelayProfile>,
    triggers: Seq<usize>,
    terminals: Seq<usize>,
    ti: int,
    ei: int,
    ps: Seq<Seq<usize>>,
    tps: Seq<TimingPath>,
) -> bool {
    &&& ps.len() == tps.len()
    &&& ps.no_duplicates()
    &&& forall|k: int| 0 <= k < ps.len() ==> describes(tps[k], g, profiles, #[trigger] ps[k])
        && from_pair_before(g, triggers, terminals, ti, ei, ps[k])
    &&& forall|a: int, b: int, p: Seq<usize>| 0 <= a < triggers.len() && 0 <= b < terminals.len()
        && (a < ti || (a == ti && b < ei)) && triggers[a] != terminals[b]
        && #[trigger] is_route(g, p, triggers[a], terminals[b]) ==> ps.contains(p)
}

/// `tps` describes, one to one, every route from a trigger to a different
/// terminal, each once.
pub open spec fn all_routes_listing(
    g: &DirectedGraph,
    profiles: Seq<DelayProfile>,
    triggers: Seq<usize>,
    terminals: Seq<usize>,
    ps: Seq<Seq<usize>>,
    tps: Seq<TimingPath>,
) -> bool {
    listing_so_far(g, profiles, triggers, terminals, triggers.len() as int, 0, ps, tps)
}

/// The routes of `ps` come pair by pair in row order (by the position of
/// their trigger, then of their terminal); within one pair the delays of
/// `tps` do not increase, and routes of equal delay come in search order.
pub open spec fn listing_in_order(
    g: &DirectedGraph,
    triggers: Seq<usize>,
    terminals: Seq<usize>,
    ps: Seq<Seq<usize>>,
    tps: Seq<TimingPath>,
) -> bool {
    forall|k: int, k2: int, a: int, b: int, a2: int, b2: int|
        0 <= k < k2 < ps.len() && 0 <= a < triggers.len() && 0 <= b < terminals.len()
        && 0 <= a2 < triggers.len() && 0 <= b2 < terminals.len()
        && #[trigger] is_route(g, ps[k], triggers[a], terminals[b]) && #[trigger] is_route(g, ps[k2], triggers[a2], terminals[b2])
        ==> (a < a2 || (a == a2 && b <= b2)) && (a == a2 && b == b2 ==> tps[k].total_delay_us >= tps[k2].total_delay_us
            && (tps[k].total_delay_us == tps[k2].total_delay_us ==> search_before(g, ps[k], ps[k2])))
}

/// Appending the routes of the pair `(ti, ei)` extends the listing.
proof fn lemma_listing_append(
    g: &DirectedGraph,
    profiles: Seq<DelayProfile>,
    triggers: Seq<usize>,
    terminals: Seq<usize>,
    ti: int,
    ei: int,
    ps_all: Seq<Seq<usize>>,
    ps_new: Seq<Seq<usize>>,
    a0: Seq<TimingPath>,
    a1: Seq<TimingPath>,
)
    requires
        0 <= ti < triggers.len(),
        0 <= ei < terminals.len(),
        triggers.no_duplicates(),
        terminals.no_duplicates(),
        listing_so_far(g, profiles, triggers, terminals, ti, ei, ps_all, a0),
        a0.len() <= a1.len(),
        path_views(a1).take(a0.len() as int) == path_views(a0),
        triggers[ti] != terminals[ei] ==> route_listing(g, profiles, triggers[ti], terminals[ei], ps_new,
            a1.subrange(a0.len() as int, a1.len() as int)),
        triggers[ti] == terminals[ei] ==> a1.len() == a0.len() && ps_new.len() == 0,
        listing_in_order(g, triggers, terminals, ps_all, a0),
        forall|j: int, j2: int| a0.len() <= j < j2 < a1.len() ==> (#[trigger] a1[j]).total_delay_us >= (#[trigger] a1[j2]).total_delay_us,
    ensures
        listing_so_far(g, profiles, triggers, terminals, ti, ei + 1, ps_all + ps_new, a1),
        listing_in_order(g, triggers, terminals, ps_all + ps_new, a1),
{
    let t = triggers[ti];
    let e = terminals[ei];
    let ps = ps_all + ps_new;
    let seg = a1.subrange(a0.len() as int, a1.len() as int);
    assert(ps.len() == a1.len());
    assert forall|k: int| 0 <= k < ps.len() implies describes(a1[k], g, profiles, #[trigger] ps[k])
        && from_pair_before(g, triggers, terminals, ti, ei + 1, ps[k]) by {
        if k < ps_all.len() {
            assert(ps[k] == ps_all[k]);
            assert(describes(a0[k], g, profiles, ps_all[k]));
            lemma_prefix_describes(a0, a1, g, profiles, k, ps_all[k]);
            assert(from_pair_before(g, triggers, terminals, ti, ei, ps_all[k]));
            let (a, b) = choose|a: int, b: int| 0 <= a < triggers.len() && 0 <= b < terminals.len()
                && (a < ti || (a == ti && b < ei)) && triggers[a] != terminals[b]
                && #[trigger] is_route(g, ps_all[k], triggers[a], terminals[b]);
            assert(is_route(g, ps[k], triggers[a], terminals[b]));
        } else {
            let j = k - ps_all.len();
            assert(ps[k] == ps_new[j]);
            assert(t != e);
            assert(seg[j] == a1[k]);
            assert(is_route(g, ps_new[j], t, e) && describes(seg[j], g, profiles, ps_new[j]));
            assert(is_route(g, ps[k], triggers[ti], terminals[ei]));
        }
    }
    assert forall|x: int, y: int| 0 <= x < y < ps.len() implies ps[x] != ps[y] by {
        if y < ps_all.len() {
            assert(ps[x] == ps_all[x] && ps[y] == ps_all[y]);
        } else if x >= ps_all.len() {
            assert(ps[x] == ps_new[x - ps_all.len()] && ps[y] == ps_new[y - ps_all.len()]);
        } else {
            assert(ps[x] == ps_all[x]);
            assert(ps[y] == ps_new[y - ps_all.len()]);
            assert(t != e);
            assert(is_route(g, ps_new[y - ps_all.len()], t, e));
            assert(from_pair_before(g, triggers, terminals, ti, ei, ps_all[x]));
            let (a, b) = choose|a: int, b: int| 0 <= a < triggers.len() && 0 <= b < terminals.len()
                && (a < ti || (a == ti && b < ei)) && triggers[a] != terminals[b]
                && #[trigger] is_route(g, ps_all[x], triggers[a], terminals[b]);
            if ps[x] == ps[y] {
                assert(triggers[a] == triggers[ti]);
                assert(a == ti);
                assert(terminals[b] == terminals[ei]);
                assert(b == ei);
            }
        }
    }
    assert forall|a: int, b: int, p: Seq<usize>| 0 <= a < triggers.len() && 0 <= b < terminals.len()
        && (a < ti || (a == ti && b < ei + 1)) && triggers[a] != terminals[b]
        && #[trigger] is_route(g, p, triggers[a], terminals[b]) implies ps.contains(p) by {
        if a == ti && b == ei {
            assert(ps_new.contains(p));
            let j = choose|j: int| 0 <= j < ps_new.len() && ps_new[j] == p;
            assert(ps[ps_all.len() + j] == p);
        } else {
            assert(ps_all.contains(p));
            let j = choose|j: int| 0 <= j < ps_all.len() && ps_all[j] == p;
            assert(ps[j] == p);
        }
    }
    assert forall|k: int, k2: int, a: int, b: int, a2: int, b2: int|
        0 <= k < k2 < ps.len() && 0 <= a < triggers.len() && 0 <= b < terminals.len()
        && 0 <= a2 < triggers.len() && 0 <= b2 < terminals.len()
        && #[trigger] is_route(g, ps[k], triggers[a], terminals[b]) && #[trigger] is_route(g, ps[k2], triggers[a2], terminals[b2])
        implies (a < a2 || (a == a2 && b <= b2)) && (a == a2 && b == b2 ==> a1[k].total_delay_us >= a1[k2].total_delay_us
            && (a1[k].total_delay_us == a1[k2].total_delay_us ==> search_before(g, ps[k], ps[k2]))) by {
        if k2 < ps_all.len() {
            assert(ps[k] == ps_all[k] && ps[k2] == ps_all[k2]);
            assert(path_views(a1).take(a0.len() as int)[k] == path_views(a0)[k]);
            assert(path_views(a1).take(a0.len() as int)[k2] == path_views(a0)[k2]);
            assert(path_views(a1)[k] == path_view(a1[k]));
            assert(path_views(a0)[k] == path_view(a0[k]));
            assert(path_views(a1)[k2] == path_view(a1[k2]));
            assert(path_views(a0)[k2] == path_view(a0[k2]));
        } else {
            let j2 = k2 - ps_all.len();
            assert(ps[k2] == ps_new[j2]);
            assert(t != e);
            assert(is_route(g, ps_new[j2], t, e));
            assert(triggers[a2] == triggers[ti]);
            assert(a2 == ti);
            assert(terminals[b2] == terminals[ei]);
            assert(b2 == ei);
            if k < ps_all.len() {
                assert(ps[k] == ps_all[k]);
                assert(from_pair_before(g, triggers, terminals, ti, ei, ps_all[k]));
                let (a3, b3) = choose|a3: int, b3: int| 0 <= a3 < triggers.len() && 0 <= b3 < terminals.len()
                    && (a3 < ti || (a3 == ti && b3 < ei)) && triggers[a3] != terminals[b3]
                    && #[trigger] is_route(g, ps_all[k], triggers[a3], terminals[b3]);
                assert(triggers[a] == triggers[a3]);
                assert(a == a3);
                assert(terminals[b] == terminals[b3]);
                assert(b == b3);
            } else {
                let j = k - ps_all.len();
                assert(ps[k] == ps_new[j]);
                assert(is_route(g, ps_new[j], t, e));
                assert(triggers[a] == triggers[ti]);
                assert(a == ti);
                assert(terminals[b] == terminals[ei]);
                assert(b == ei);
                assert(a1[a0.len() + j].total_delay_us >= a1[a0.len() + j2].total_delay_us);
                assert(seg[j] == a1[k] && seg[j2] == a1[k2]);
                if a1[k].total_delay_us == a1[k2].total_delay_us {
                    assert(ties_in_search_order(g, ps_new, seg));
                    assert(search_before(g, ps_new[j], ps_new[j2]));
                }
            }
        }
    }
}

/// The end of a row of pairs is the start of the next.
proof fn lemma_listing_next_row(
    g: &DirectedGraph,
    profiles: Seq<DelayProfile>,
    triggers: Seq<usize>,
    terminals: Seq<usize>,
    ti: int,
    ps: Seq<Seq<usize>>,
    tps: Seq<TimingPath>,
)
    requires
        listing_so_far(g, profiles, triggers, terminals, ti, terminals.len() as int, ps, tps),
    ensures
        listing_so_far(g, profiles, triggers, terminals, ti + 1, 0, ps, tps),
{
    assert forall|k: int| 0 <= k < ps.len() implies describes(tps[k], g, profiles, #[trigger] ps[k])
        && from_pair_before(g, triggers, terminals, ti + 1, 0, ps[k]) by {
        assert(from_pair_before(g, triggers, terminals, ti, terminals.len() as int, ps[k]));
        let (a, b) = choose|a: int, b: int| 0 <= a < triggers.len() && 0 <= b < terminals.len()
            && (a < ti || (a == ti && b < terminals.len())) && triggers[a] != terminals[b]
            && #[trigger] is_route(g, ps[k], triggers[a], terminals[b]);
        assert(is_route(g, ps[k], triggers[a], terminals[b]));
    }
}

/// The sum of the total delays of the paths.
pub open spec fn delay_sum(ps: Seq<TimingPath>) -> nat
    decreases ps.len(),
{
    if ps.len() == 0 { 0 } else { delay_sum(ps.drop_last()) + ps.last().total_delay_us as nat }
}

/// The largest total delay of the paths, 0 when there is none.
pub open spec fn delay_max(ps: Seq<TimingPath>) -> nat
    decreases ps.len(),
{
    if ps.len() == 0 {
        0
    } else {
        let m = delay_max(ps.drop_last());
        if ps.last().total_delay_us > m { ps.last().total_delay_us as nat } else { m }
    }
}

/// The smallest total delay of the paths, 0 when there is none.
pub open spec fn delay_min(ps: Seq<TimingPath>) -> nat
    decreases ps.len(),
{
    if ps.len() == 0 {
        0
    } else if ps.len() == 1 {
        ps[0].total_delay_us as nat
    } else {
        let m = delay_min(ps.drop_last());
        if ps.last().total_delay_us < m { ps.last().total_delay_us as nat } else { m }
    }
}

/// The largest and the smallest total delay of a nonempty list bound every
/// path's total delay and belong to some path; with no path both are 0.
pub proof fn lemma_delay_extremes(ps: Seq<TimingPath>)
    ensures
        forall|i: int| 0 <= i < ps.len() ==> delay_min(ps) <= #[trigger] ps[i].total_delay_us <= delay_max(ps),
        ps.len() > 0 ==> exists|i: int| 0 <= i < ps.len() && #[trigger] ps[i].total_delay_us == delay_max(ps),
        ps.len() > 0 ==> exists|i: int| 0 <= i < ps.len() && #[trigger] ps[i].total_delay_us == delay_min(ps),
        ps.len() == 0 ==> delay_max(ps) == 0 && delay_min(ps) == 0,
    decreases ps.len(),
{
    if ps.len() > 0 {
        let p = ps.drop_last();
        let n = ps.len() - 1;
        lemma_delay_extremes(p);
        assert forall|i: int| 0 <= i < n implies ps[i] == p[i] by {}
        assert(ps[n] == ps.last());
        if ps.len() > 1 {
            let a = choose|i: int| 0 <= i < p.len() && #[trigger] p[i].total_delay_us == delay_max(p);
            let b = choose|i: int| 0 <= i < p.len() && #[trigger] p[i].total_delay_us == delay_min(p);
            assert(ps[a] == p[a]);
            assert(ps[b] == p[b]);
        }
        assert forall|i: int| 0 <= i < ps.len() implies delay_min(ps) <= #[trigger] ps[i].total_delay_us <= delay_max(ps) by {
            if i < n {
                assert(ps[i] == p[i]);
            }
        }
    }
}

/// Sums of prefixes grow with the prefix.
proof fn lemma_delay_sum_prefix(ps: Seq<TimingPath>, k: int)
    requires
        0 <= k <= ps.len(),
    ensures
        delay_sum(ps.take(k)) <= delay_sum(ps),
    decreases ps.len() - k,
{
    if k < ps.len() {
        lemma_delay_sum_prefix(ps, k + 1);
        assert(ps.take(k + 1).drop_last() =~= ps.take(k));
    } else {
        assert(ps.take(k) =~= ps);
    }
}


/// Analyses how long protection signals take from relays to breakers.
pub struct TimingAnalyzer;

impl TimingAnalyzer {
    /// An analyzer; it holds no state.
    pub fn new() -> Self {
        TimingAnalyzer
    }

    /// The role of a node named `ied_name` of kind `node_type`.
    pub fn classify_ied_role(ied_name: &str, node_type: NodeType) -> (r: IEDRole)
        ensures
            r == classify_spec(ied_name@, node_type),
    {
        if node_type == NodeType::Switch {
            return IEDRole::Switch;
        }
        let upper = to_upper(ied_name);
        Self::role_from_upper(upper.as_str())
    }

    /// The role that an upper-case name gives.
    pub fn role_from_upper(upper: &str) -> (r: IEDRole)
        ensures
            r == role_for(upper@),
    {
        if contains_text(upper, "PROT") || contains_text(upper, "PROTECTION") || contains_text(upper, "保护") {
            IEDRole::ProtectionRelay
        } else if contains_text(upper, "MU") || contains_text(upper, "MERGING") || contains_text(upper, "合并单元") {
            IEDRole::MergingUnit
        } else if contains_text(upper, "BCU") || contains_text(upper, "CONTROL") || contains_text(upper, "控制")
            || contains_text(upper, "BAY") {
            IEDRole::BayControlUnit
        } else if contains_text(upper, "CB") || contains_text(upper, "BREAKER") || contains_text(upper, "断路器")
            || contains_text(upper, "TRIP") {
            IEDRole::CircuitBreaker
        } else if contains_text(upper, "MONITOR") || contains_text(upper, "MON") || contains_text(upper, "监视") {
            IEDRole::MonitoringDevice
        } else {
            IEDRole::Unknown
        }
    }

    /// The role of each node.
    fn node_roles(graph: &DirectedGraph) -> (r: Vec<IEDRole>)
        ensures
            r@.len() == graph.n(),
            forall|i: int| 0 <= i < graph.n() ==> #[trigger] r@[i] == node_role(graph, i),
    {
        let n = graph.node_count();
        let mut roles: Vec<IEDRole> = Vec::new();
        let mut i: usize = 0;
        while i < n
            invariant
                n == graph.n(),
                i <= n,
                roles@.len() == i,
                forall|k: int| 0 <= k < i ==> #[trigger] roles@[k] == node_role(graph, k),
            decreases n - i,
        {
            let node = &graph.nodes[i];
            let role = Self::classify_ied_role(node.ied_name.as_str(), node.node_type);
            roles.push(role);
            i = i + 1;
        }
        roles
    }

    /// The delay profile of each role.
    fn profiles_of_roles(roles: &Vec<IEDRole>) -> (r: Vec<DelayProfile>)
        ensures
            r@.len() == roles@.len(),
            forall|i: int| 0 <= i < roles@.len() ==> #[trigger] r@[i] == profile_of(roles@[i]),
    {
        let mut out: Vec<DelayProfile> = Vec::new();
        let mut i: usize = 0;
        while i < roles.len()
            invariant
                i <= roles@.len(),
                out@.len() == i,
                forall|k: int| 0 <= k < i ==> #[trigger] out@[k] == profile_of(roles@[k]),
            decreases roles@.len() - i,
        {
            out.push(Self::get_delay_profile(&roles[i]));
            i = i + 1;
        }
        out
    }

    /// The relays that start signals and the breaker-side nodes that end them.
    fn endpoints(graph: &DirectedGraph, roles: &Vec<IEDRole>) -> (r: (Vec<usize>, Vec<usize>))
        requires
            graph.wf(),
            roles@.len() == graph.n(),
            forall|i: int| 0 <= i < graph.n() ==> #[trigger] roles@[i] == node_role(graph, i),
        ensures
            r.0@ == nodes_where(graph.n(), |i: int| is_trigger(graph, i)),
            r.1@ == nodes_where(graph.n(), |i: int| is_terminal(graph, i)),
    {
        let ghost pt = |i: int| is_trigger(graph, i);
        let ghost pe = |i: int| is_terminal(graph, i);
        let n = graph.node_count();
        let mut triggers: Vec<usize> = Vec::new();
        let mut terminals: Vec<usize> = Vec::new();
        let mut i: usize = 0;
        while i < n
            invariant
                n == graph.n(),
                i <= n,
                roles@.len() == n,
                forall|k: int| 0 <= k < n ==> #[trigger] roles@[k] == node_role(graph, k),
                pt == |i: int| is_trigger(graph, i),
                pe == |i: int| is_terminal(graph, i),
                triggers@ == nodes_where(i as int, pt),
                terminals@ == nodes_where(i as int, pe),
            decreases n - i,
        {
            let role = roles[i];
            if role == IEDRole::ProtectionRelay && graph.out_degree(i) > 0 {
                triggers.push(i);
            }
            if (role == IEDRole::CircuitBreaker || role == IEDRole::BayControlUnit) && graph.in_degree(i) > 0 {
                terminals.push(i);
            }
            proof {
                assert(pt(i as int) == is_trigger(graph, i as int));
                assert(pe(i as int) == is_terminal(graph, i as int));
            }
            i = i + 1;
        }
        (triggers, terminals)
    }

    /// The arrival time of the signal at each node when the nodes pass it on
    /// in the order `order`.
    fn arrival_times(graph: &DirectedGraph, delays: &Vec<u64>, order: &Vec<usize>) -> (r: Vec<u64>)
        requires
            graph.wf(),
            delays@.len() == graph.n(),
            forall|k: int| 0 <= k < order@.len() ==> #[trigger] order@[k] < graph.n(),
        ensures
            r@ == arrivals(graph, delays@, order@),
    {
        let n = graph.node_count();
        let mut arr: Vec<u64> = Vec::new();
        let mut i: usize = 0;
        while i < n
            invariant
                n == graph.n(),
                i <= n,
                arr@ == Seq::new(i as nat, |k: int| 0u64),
            decreases n - i,
        {
            arr.push(0);
            proof { assert(arr@ =~= Seq::new((i + 1) as nat, |k: int| 0u64)); }
            i = i + 1;
        }
        proof { assert(order@.take(0) =~= Seq::<usize>::empty()); }
        let mut k: usize = 0;
        while k < order.len()
            invariant
                n == graph.n(),
                graph.wf(),
                delays@.len() == n,
                forall|q: int| 0 <= q < order@.len() ==> #[trigger] order@[q] < n,
                k <= order@.len(),
                arr@ == arrivals(graph, delays@, order@.take(k as int)),
            decreases order@.len() - k,
        {
            let u = order[k];
            let ghost a0 = arr@;
            proof {
                lemma_arrivals_len(graph, delays@, order@.take(k as int));
                assert(order@.take(k + 1).drop_last() =~= order@.take(k as int));
                assert(order@.take(k + 1).last() == u);
            }
            let base: u64 = if graph.in_degree(u) == 0 { 0 } else { arr[u] };
            let val = base.saturating_add(delays[u]);
            let targets = &graph.adjacency[u];
            let mut j: usize = 0;
            proof { assert(targets@.take(0) =~= Seq::<usize>::empty()); }
            while j < targets.len()
                invariant
                    n == graph.n(),
                    graph.wf(),
                    u < n,
                    *targets == graph.adjacency@[u as int],
                    j <= targets@.len(),
                    a0.len() == n,
                    arr@ == relax_all(a0, targets@.take(j as int), val),
                decreases targets@.len() - j,
            {
                let v = targets[j];
                proof {
                    assert(graph.adj(u as int)[j as int] == v);
                    assert(targets@.take(j + 1).drop_last() =~= targets@.take(j as int));
                    assert(targets@.take(j + 1).last() == v);
                    lemma_relax_all_len(a0, targets@.take(j as int), val);
                }
                if val > arr[v] {
                    arr.set(v, val);
                }
                j = j + 1;
            }
            proof { assert(targets@.take(j as int) =~= graph.adj(u as int)); }
            k = k + 1;
        }
        proof { assert(order@.take(k as int) =~= order@); }
        arr
    }

    /// The order used when the graph has a cycle: a depth-first walk from
    /// each of `cyclic` in turn, then every node not reached, in index order.
    fn fallback_order(graph: &DirectedGraph, cyclic: &Vec<usize>) -> (r: Vec<usize>)
        requires
            graph.wf(),
            forall|k: int| 0 <= k < cyclic@.len() ==> #[trigger] cyclic@[k] < graph.n(),
        ensures
            is_node_permutation(graph, r@),
            fallback_shape(graph, cyclic@, r@),
    {
        let n = graph.node_count();
        let mut visited: Vec<bool> = Vec::new();
        let mut i: usize = 0;
        while i < n
            invariant
                i <= n,
                visited@.len() == i,
                forall|x: int| 0 <= x < i ==> !#[trigger] visited@[x],
            decreases n - i,
        {
            visited.push(false);
            i = i + 1;
        }
        let mut order: Vec<usize> = Vec::new();
        proof {
            assert(order@ =~= Seq::<usize>::empty());
            lemma_reached_none(graph, cyclic@);
        }
        let mut c: usize = 0;
        while c < cyclic.len()
            invariant
                n == graph.n(),
                graph.wf(),
                forall|k: int| 0 <= k < cyclic@.len() ==> #[trigger] cyclic@[k] < n,
                c <= cyclic@.len(),
                walk_state(n as int, visited@, order@),
                reached_from(graph, cyclic@, c as int, order@),
                forall|i: int| 0 <= i < order@.len() ==> #[trigger] walk_entry(graph, cyclic@, order@.take(i), order@[i]),
                forall|i: int| 0 <= i < c ==> order@.contains(#[trigger] cyclic@[i]),
            decreases cyclic@.len() - c,
        {
            let start = cyclic[c];
            let ghost o0 = order@;
            proof { lemma_reached_closed(graph, cyclic@, c as int, order@); }
            if !visited[start] {
                proof {
                    lemma_closed_walk_done(graph, o0);
                    assert(!o0.contains(start));
                }
                Self::walk_from(graph, start, &mut visited, &mut order);
                proof {
                    assert(order@.take(o0.len() as int) =~= o0);
                    assert forall|i: int| 0 <= i < order@.len() implies #[trigger] walk_entry(graph, cyclic@, order@.take(i), order@[i]) by {
                        if i < o0.len() {
                            assert(order@.take(i) =~= o0.take(i));
                            assert(order@[i] == o0[i]);
                        } else if i == o0.len() {
                            assert(cyclic@[c as int] == start);
                            assert(crate::graph::depth_first::first_missing_start(cyclic@, o0, start));
                        }
                    }
                }
            }
            proof {
                assert(order@.contains(start)) by {
                    assert(visited@[start as int]);
                }
                assert(order@.take(o0.len() as int) =~= o0);
                lemma_reached_step(graph, cyclic@, c as int, o0, order@);
                assert forall|i: int| 0 <= i < c + 1 implies order@.contains(#[trigger] cyclic@[i]) by {
                    if i < c {
                        assert(o0.contains(cyclic@[i]));
                        let k = choose|k: int| 0 <= k < o0.len() && o0[k] == cyclic@[i];
                        assert(order@[k] == cyclic@[i]);
                    }
                }
            }
            c = c + 1;
        }
        proof {
            lemma_reached_closed(graph, cyclic@, c as int, order@);
            lemma_closed_walk_done(graph, order@);
        }
        let ghost first = order@;
        let ghost p = order@.len() as int;
        let mut v: usize = 0;
        while v < n
            invariant
                n == graph.n(),
                v <= n,
                walk_state(n as int, visited@, order@),
                forall|x: int| 0 <= x < v ==> #[trigger] visited@[x],
                p == first.len(),
                p <= order@.len(),
                forall|i: int| 0 <= i < p ==> #[trigger] order@[i] == first[i],
                forall|a: int, b: int| p <= a < b < order@.len() ==> order@[a] < order@[b],
                forall|a: int| p <= a < order@.len() ==> #[trigger] order@[a] < v,
            decreases n - v,
        {
            if !visited[v] {
                let ghost o0 = order@;
                proof { lemma_walk_push(n as int, visited@, order@, v); }
                visited.set(v, true);
                order.push(v);
                proof {
                    assert forall|i: int| 0 <= i < p implies #[trigger] order@[i] == first[i] by {
                        assert(order@[i] == o0[i]);
                    }
                    assert forall|a: int, b: int| p <= a < b < order@.len() implies order@[a] < order@[b] by {
                        assert(order@[a] == o0[a]);
                        if b < o0.len() {
                            assert(order@[b] == o0[b]);
                        }
                    }
                    assert forall|a: int| p <= a < order@.len() implies #[trigger] order@[a] < v + 1 by {
                        if a < o0.len() {
                            assert(order@[a] == o0[a]);
                        }
                    }
                }
            }
            v = v + 1;
        }
        proof {
            assert(order@.take(p) =~= first);
            assert forall|x: usize| x < n implies #[trigger] order@.contains(x) by {
                assert(visited@[x as int]);
            }
            crate::graph::facts::lemma_distinct_below(order@, n as nat);
            lemma_reached_all(graph, cyclic@, first);
            assert forall|x: usize| x < graph.n() implies ((#[trigger] order@.take(p)).contains(x)
                <==> exists|cc: usize| cyclic@.contains(cc) && #[trigger] reaches(graph, cc, x)) by {
                assert(first.contains(x) <==> exists|cc: usize| cyclic@.contains(cc) && #[trigger] reaches(graph, cc, x));
            }
            assert forall|i: int| 0 <= i < p implies #[trigger] walk_entry(graph, cyclic@, order@.take(i), order@[i]) by {
                assert(order@.take(i) =~= first.take(i));
            }
            assert(depth_first_prefix(graph, cyclic@, order@, p));
            assert(fallback_shape(graph, cyclic@, order@));
        }
        order
    }

    /// Depth-first walk from `start`, marking and listing every node reached
    /// that was not marked.
    fn walk_from(graph: &DirectedGraph, start: usize, visited: &mut Vec<bool>, order: &mut Vec<usize>)
        requires
            graph.wf(),
            start < graph.n(),
            walk_state(graph.n(), old(visited)@, old(order)@),
            !old(visited)@[start as int],
            forall|x: usize, y: usize| old(order)@.contains(x) && #[trigger] graph.edge(x as int, y as int) ==> old(order)@.contains(y),
        ensures
            walk_state(graph.n(), final(visited)@, final(order)@),
            final(order)@.len() > old(order)@.len(),
            final(order)@[old(order)@.len() as int] == start,
            forall|i: int| old(order)@.len() < i < final(order)@.len() ==>
                #[trigger] dfs_next(graph, final(order)@.take(i), final(order)@[i]),
            forall|x: int| 0 <= x < graph.n() && old(visited)@[x] ==> #[trigger] final(visited)@[x],
            final(visited)@[start as int],
            old(order)@.len() <= final(order)@.len(),
            final(order)@.take(old(order)@.len() as int) == old(order)@,
            forall|k: int| old(order)@.len() <= k < final(order)@.len() ==> reaches(graph, start, #[trigger] final(order)@[k]),
            forall|x: usize, y: usize| final(order)@.contains(x) && #[trigger] graph.edge(x as int, y as int) ==> final(order)@.contains(y),
    {
        let n = graph.node_count();
        let ghost vis0 = visited@;
        let ghost o0 = order@;
        let mut stack: Vec<usize> = Vec::new();
        stack.push(start);
        proof {
            lemma_reaches_self(graph, start);
            assert(stack@[0] == start);
            assert(!o0.contains(start));
            assert(stack@.drop_last() =~= Seq::<usize>::empty());
            assert(stack@.last() == start);
            assert(unlisted(stack@.drop_last(), order@) =~= Seq::<usize>::empty());
            assert(unlisted(stack@, order@) == unlisted(stack@.drop_last(), order@).push(start));
            assert(unlisted(stack@, order@) =~= seq![start]);
            assert(pending_from(graph, order@, o0.len() as int, order@.len() as int) =~= Seq::<usize>::empty());
            assert(walk_front(start, order@) + pending_from(graph, order@, o0.len() as int, order@.len() as int) =~= seq![start]);
        }
        while stack.len() > 0
            invariant
                n == graph.n(),
                graph.wf(),
                start < n,
                walk_state(n as int, visited@, order@),
                forall|k: int| 0 <= k < stack@.len() ==> #[trigger] stack@[k] < n,
                forall|x: int| 0 <= x < n && vis0[x] ==> #[trigger] visited@[x],
                vis0.len() == n,
                o0.len() <= order@.len(),
                order@.take(o0.len() as int) == o0,
                forall|k: int| 0 <= k < stack@.len() ==> reaches(graph, start, #[trigger] stack@[k]),
                forall|k: int| o0.len() <= k < order@.len() ==> reaches(graph, start, #[trigger] order@[k]),
                forall|x: usize, y: usize| order@.contains(x) && #[trigger] graph.edge(x as int, y as int) ==>
                    order@.contains(y) || stack@.contains(y),
                order@.contains(start) || stack@.contains(start),
                unlisted(stack@, order@) == walk_front(start, order@)
                    + pending_from(graph, order@, o0.len() as int, order@.len() as int),
                order@.contains(start) <==> order@.len() > o0.len(),
                order@.len() > o0.len() ==> order@[o0.len() as int] == start,
                forall|i: int| o0.len() < i < order@.len() ==> #[trigger] dfs_next(graph, order@.take(i), order@[i]),
            decreases n - order@.len(), stack@.len(),
        {
            let ghost st0 = stack@;
            let ghost od0 = order@;
            let u = stack.pop().unwrap();
            proof {
                assert(st0.last() == u);
                assert(stack@ =~= st0.drop_last());
                assert(reaches(graph, start, st0[st0.len() - 1]));
                assert forall|y: usize| #[trigger] st0.contains(y) implies stack@.contains(y) || y == u by {
                    let k = choose|k: int| 0 <= k < st0.len() && st0[k] == y;
                    if k < st0.len() - 1 {
                        assert(stack@[k] == y);
                    }
                }
            }
            if !visited[u] {
                proof {
                    lemma_walk_push(n as int, visited@, order@, u);
                    lemma_walk_fresh(graph, o0.len() as int, start, st0, od0);
                }
                visited.set(u, true);
                order.push(u);
                proof {
                    assert forall|y: usize| #[trigger] od0.contains(y) implies order@.contains(y) by {
                        lemma_push_contains(od0, u, y);
                    }
                    lemma_push_contains(od0, u, u);
                    assert(order@.take(o0.len() as int) =~= od0.take(o0.len() as int));
                }
                let targets = &graph.adjacency[u];
                let ghost st1 = stack@;
                let mut j: usize = 0;
                while j < targets.len()
                    invariant
                        n == graph.n(),
                        graph.wf(),
                        start < n,
                        walk_state(n as int, visited@, order@),
                        u < n,
                        *targets == graph.adjacency@[u as int],
                        j <= targets@.len(),
                        forall|k: int| 0 <= k < stack@.len() ==> #[trigger] stack@[k] < n,
                        reaches(graph, start, u),
                        forall|k: int| 0 <= k < stack@.len() ==> reaches(graph, start, #[trigger] stack@[k]),
                        st1.len() <= stack@.len(),
                        forall|k: int| 0 <= k < st1.len() ==> #[trigger] stack@[k] == st1[k],
                        forall|i: int| 0 <= i < j ==> order@.contains(#[trigger] graph.adj(u as int)[i])
                            || stack@.contains(graph.adj(u as int)[i]),
                        stack@ == st1 + unlisted(graph.adj(u as int).take(j as int), order@),
                    decreases targets@.len() - j,
                {
                    let w = targets[j];
                    proof {
                        assert(graph.adj(u as int)[j as int] == w);
                        assert(graph.adj(u as int).take(j + 1).drop_last() =~= graph.adj(u as int).take(j as int));
                        assert(graph.adj(u as int).take(j + 1).last() == w);
                    }
                    if !visited[w] {
                        let ghost sb = stack@;
                        stack.push(w);
                        proof {
                            assert(!order@.contains(w));
                            assert(stack@ =~= st1 + unlisted(graph.adj(u as int).take(j + 1), order@));
                            assert(graph.adj(u as int).contains(w));
                            lemma_reaches_prepend_edge(graph, start, u, w);
                            assert forall|i: int| 0 <= i < j + 1 implies order@.contains(#[trigger] graph.adj(u as int)[i])
                                || stack@.contains(graph.adj(u as int)[i]) by {
                                lemma_push_contains(sb, w, graph.adj(u as int)[i]);
                            }
                        }
                    } else {
                        proof {
                            assert(order@.contains(w));
                            assert(unlisted(graph.adj(u as int).take(j + 1), order@) == unlisted(graph.adj(u as int).take(j as int), order@));
                        }
                    }
                    j = j + 1;
                }
                proof {
                    assert forall|y: usize| st1.contains(y) implies #[trigger] stack@.contains(y) by {
                        let k = choose|k: int| 0 <= k < st1.len() && st1[k] == y;
                        assert(stack@[k] == y);
                    }
                    assert forall|x: usize, y: usize| order@.contains(x) && #[trigger] graph.edge(x as int, y as int) implies
                        order@.contains(y) || stack@.contains(y) by {
                        lemma_push_contains(od0, u, x);
                        if x == u {
                            let i = choose|i: int| 0 <= i < graph.adj(u as int).len() && graph.adj(u as int)[i] == y;
                            assert(order@.contains(graph.adj(u as int)[i]) || stack@.contains(graph.adj(u as int)[i]));
                        } else {
                            assert(od0.contains(x));
                            assert(od0.contains(y) || st0.contains(y));
                            lemma_push_contains(od0, u, y);
                        }
                    }
                    assert forall|k: int| o0.len() <= k < order@.len() implies reaches(graph, start, #[trigger] order@[k]) by {
                        if k < od0.len() {
                            assert(order@[k] == od0[k]);
                        }
                    }
                    assert(graph.adj(u as int).take(targets@.len() as int) =~= graph.adj(u as int));
                    assert(st1 =~= st0.drop_last());
                    assert(order@ == od0.push(u));
                    assert(od0.len() > o0.len() ==> order@[o0.len() as int] == od0[o0.len() as int]);
                    assert forall|i: int| o0.len() < i < order@.len() implies #[trigger] dfs_next(graph, order@.take(i), order@[i]) by {
                        if i < od0.len() {
                            assert(order@.take(i) =~= od0.take(i));
                            assert(order@[i] == od0[i]);
                        } else {
                            assert(order@.take(i) =~= od0);
                        }
                    }
                }
            } else {
                proof {
                    assert(od0.contains(u));
                    assert forall|x: usize, y: usize| order@.contains(x) && #[trigger] graph.edge(x as int, y as int) implies
                        order@.contains(y) || stack@.contains(y) by {
                        assert(od0.contains(y) || st0.contains(y));
                    }
                    assert(unlisted(st0, od0) == unlisted(st0.drop_last(), od0));
                }
            }
        }
        proof {
            assert forall|x: usize, y: usize| order@.contains(x) && #[trigger] graph.edge(x as int, y as int) implies
                order@.contains(y) by {
                assert(!stack@.contains(y));
            }
            assert(unlisted(stack@, order@) =~= Seq::<usize>::empty());
            if !order@.contains(start) {
                assert((walk_front(start, order@) + pending_from(graph, order@, o0.len() as int, order@.len() as int)).len() > 0);
            }
            assert(order@.contains(start));
        }
    }

    /// The nodes of `path`, as a set.
    fn path_set(path: &Vec<usize>) -> (s: std::collections::HashSet<usize>)
        ensures
            forall|x: usize| #[trigger] s@.contains(x) <==> path@.contains(x),
    {
        broadcast use vstd::std_specs::hash::group_hash_axioms;
        let mut s: std::collections::HashSet<usize> = std::collections::HashSet::new();
        let mut i: usize = 0;
        while i < path.len()
            invariant
                i <= path@.len(),
                forall|x: usize| #[trigger] s@.contains(x) <==> path@.take(i as int).contains(x),
            decreases path@.len() - i,
        {
            let ghost s0 = s@;
            s.insert(path[i]);
            proof {
                assert(path@.take(i + 1) =~= path@.take(i as int).push(path@[i as int]));
                assert forall|x: usize| #[trigger] s@.contains(x) <==> path@.take(i + 1).contains(x) by {
                    crate::graph::facts::lemma_push_contains(path@.take(i as int), path@[i as int], x);
                }
            }
            i = i + 1;
        }
        proof { assert(path@.take(path@.len() as int) =~= path@); }
        s
    }

    /// Adds to `results` every route to `end` that begins with `path`,
    /// looking at the out-neighbours of a node from the last to the first.
    fn explore(graph: &DirectedGraph, end: usize, depth: usize, path: &mut Vec<usize>, results: &mut Vec<Vec<usize>>)
        requires
            graph.wf(),
            depth == old(path)@.len(),
            is_walk(graph, old(path)@),
            old(path)@.no_duplicates(),
            old(path)@.len() < 64,
        ensures
            final(path)@ == old(path)@,
            keeps(views(old(results)@), views(final(results)@)),
            forall|k: int| old(results)@.len() <= k < final(results)@.len() ==>
                is_route_to(graph, #[trigger] views(final(results)@)[k], end) && extends(old(path)@, views(final(results)@)[k]),
            forall|p: Seq<usize>| is_route_to(graph, p, end) && #[trigger] extends(old(path)@, p) ==>
                covered(views(final(results)@), old(results)@.len() as int, p),
            views(final(results)@).subrange(old(results)@.len() as int, final(results)@.len() as int).no_duplicates(),
            forall|m1: int, m2: int| old(results)@.len() <= m1 < m2 < final(results)@.len() ==>
                search_before(graph, #[trigger] views(final(results)@)[m1], #[trigger] views(final(results)@)[m2]),
        decreases 64 - depth,
    {
        let ghost path0 = path@;
        let ghost rs0 = views(results@);
        let ghost from = results@.len() as int;
        let current = path[path.len() - 1];
        if current == end {
            let copy = copy_indices(path);
            results.push(copy);
            proof {
                assert(views(results@) =~= rs0.push(path0));
                assert(views(results@)[from] == path0);
                assert forall|p: Seq<usize>| is_route_to(graph, p, end) && #[trigger] extends(path0, p) implies
                    covered(views(results@), from, p) by {
                    if p.len() > path0.len() {
                        assert(p[path0.len() - 1] == path0[path0.len() - 1]);
                        assert(p[path0.len() - 1] == p[p.len() - 1]);
                    }
                    assert(p =~= path0);
                }
                assert(path0.subrange(0, path0.len() as int) =~= path0);
                assert(extends(path0, path0));
                assert(views(results@).subrange(from, views(results@).len() as int) =~= seq![path0]);
            }
            return;
        }
        let on_path = Self::path_set(path);
        let targets = &graph.adjacency[current];
        let ghost deg = targets@.len();
        let mut k: usize = targets.len();
        while k > 0
            invariant
                graph.wf(),
                is_walk(graph, path0),
                path0.no_duplicates(),
                path0.len() < 64,
                depth == path0.len(),
                path@ == path0,
                forall|x: usize| #[trigger] on_path@.contains(x) <==> path0.contains(x),
                current == path0.last(),
                current != end,
                current < graph.n(),
                *targets == graph.adjacency@[current as int],
                k <= targets@.len(),
                from == rs0.len(),
                keeps(rs0, views(results@)),
                forall|m: int| from <= m < results@.len() ==>
                    is_route_to(graph, #[trigger] views(results@)[m], end) && extends(path0, views(results@)[m]),
                forall|p: Seq<usize>| is_route_to(graph, p, end) && #[trigger] extends(path0, p) && p.len() > path0.len()
                    && targets@.subrange(k as int, targets@.len() as int).contains(p[path0.len() as int])
                    ==> covered(views(results@), from, p),
                from <= views(results@).len(),
                views(results@).subrange(from, views(results@).len() as int).no_duplicates(),
                forall|m: int| #![trigger views(results@)[m]] from <= m < views(results@).len() ==>
                    views(results@)[m].len() > path0.len()
                    && targets@.subrange(k as int, targets@.len() as int).contains(views(results@)[m][path0.len() as int]),
                forall|m1: int, m2: int| from <= m1 < m2 < views(results@).len() ==>
                    search_before(graph, #[trigger] views(results@)[m1], #[trigger] views(results@)[m2]),
            decreases k,
        {
            k = k - 1;
            let nb = targets[k];
            let ghost rs1 = views(results@);
            let seen = {
                broadcast use vstd::std_specs::hash::group_hash_axioms;
                on_path.contains(&nb)
            };
            proof { assert(seen == path0.contains(nb)); }
            if !seen && depth + 1 < 64 {
                path.push(nb);
                proof {
                    assert(graph.adj(current as int)[k as int] == nb);
                    assert(graph.edge(current as int, nb as int));
                    let q = path@;
                    assert(q =~= path0.push(nb));
                    assert forall|i: int| 0 <= i < q.len() implies #[trigger] q[i] < graph.n() by {
                        if i < path0.len() { assert(q[i] == path0[i]); }
                    }
                    assert forall|i: int| 0 <= i < q.len() - 1 implies #[trigger] graph.edge(q[i] as int, q[i + 1] as int) by {
                        if i < path0.len() - 1 {
                            assert(q[i] == path0[i] && q[i + 1] == path0[i + 1]);
                        } else {
                            assert(q[i] == current && q[i + 1] == nb);
                        }
                    }
                    assert(is_walk(graph, q));
                    assert forall|a: int, b: int| 0 <= a < b < q.len() implies q[a] != q[b] by {
                        if b == path0.len() {
                            assert(q[a] == path0[a]);
                            assert(!path0.contains(nb));
                        }
                    }
                }
                Self::explore(graph, end, depth + 1, path, results);
                let ghost q = path@;
                path.pop();
                proof {
                    assert(path@ =~= path0);
                    let rs2 = views(results@);
                    assert forall|m: int| from <= m < results@.len() implies
                        is_route_to(graph, #[trigger] views(results@)[m], end) && extends(path0, views(results@)[m]) by {
                        if m >= rs1.len() {
                            let p = rs2[m];
                            assert(extends(q, p));
                            assert(p.subrange(0, path0.len() as int) =~= p.subrange(0, q.len() as int).subrange(0, path0.len() as int));
                            assert(q.subrange(0, path0.len() as int) =~= path0);
                        } else {
                            assert(rs2[m] == rs1[m]);
                        }
                    }
                    assert forall|p: Seq<usize>| is_route_to(graph, p, end) && #[trigger] extends(path0, p) && p.len() > path0.len()
                        && targets@.subrange(k as int, targets@.len() as int).contains(p[path0.len() as int])
                        implies covered(views(results@), from, p) by {
                        if p[path0.len() as int] == nb {
                            assert(p.subrange(0, q.len() as int) =~= q) by {
                                assert(p.subrange(0, path0.len() as int) == path0);
                                assert forall|i: int| 0 <= i < q.len() implies p.subrange(0, q.len() as int)[i] == q[i] by {
                                    if i < path0.len() {
                                        assert(p.subrange(0, path0.len() as int)[i] == path0[i]);
                                    }
                                }
                            }
                            assert(extends(q, p));
                            let m = choose|m: int| 0 <= m && rs1.len() <= m < rs2.len() && #[trigger] rs2[m] == p;
                        } else {
                            let sub = targets@.subrange(k as int, targets@.len() as int);
                            let x = choose|x: int| 0 <= x < sub.len() && sub[x] == p[path0.len() as int];
                            assert(x != 0);
                            assert(targets@.subrange(k + 1, targets@.len() as int)[x - 1] == p[path0.len() as int]);
                            lemma_covered_grow(rs1, rs2, from, p);
                        }
                    }
                    lemma_keeps_trans(rs0, rs1, rs2);
                    assert(graph.adj(current as int).no_duplicates());
                    assert forall|m: int| #![trigger rs1[m]] from <= m < rs1.len() implies rs1[m].len() > path0.len()
                        && targets@.subrange(k + 1, targets@.len() as int).contains(rs1[m][path0.len() as int]) by {}
                    assert forall|m: int| #![trigger rs2[m]] rs1.len() <= m < rs2.len() implies
                        extends(path0.push(targets@[k as int]), rs2[m]) by {
                        assert(q == path0.push(nb));
                    }
                    lemma_explore_distinct(rs1, rs2, from, path0, targets@, k as int);
                    assert forall|m1: int, m2: int| from <= m1 < m2 < rs2.len() implies
                        search_before(graph, #[trigger] rs2[m1], #[trigger] rs2[m2]) by {
                        if m2 < rs1.len() {
                            assert(rs2[m1] == rs1[m1] && rs2[m2] == rs1[m2]);
                        } else if m1 < rs1.len() {
                            assert(rs2[m1] == rs1[m1]);
                            let y = rs1[m1][path0.len() as int];
                            let sub = targets@.subrange(k + 1, targets@.len() as int);
                            let x = choose|x: int| 0 <= x < sub.len() && sub[x] == y;
                            assert(targets@[k + 1 + x] == y);
                            assert(extends(path0.push(targets@[k as int]), rs2[m2]));
                            let p2 = rs2[m2];
                            assert(p2.subrange(0, path0.len() as int + 1)[path0.len() as int] == p2[path0.len() as int]);
                            assert(extends(path0, p2)) by {
                                assert(p2.subrange(0, path0.len() as int) =~= path0) by {
                                    assert forall|i: int| 0 <= i < path0.len() implies p2.subrange(0, path0.len() as int)[i] == path0[i] by {
                                        assert(p2.subrange(0, path0.len() as int + 1)[i] == path0.push(targets@[k as int])[i]);
                                    }
                                }
                            }
                            assert(extends(path0, rs1[m1]));
                            lemma_search_split(graph, path0, targets@, k + 1 + x, k as int, rs1[m1], p2);
                        }
                    }
                }
            } else {
                proof {
                    assert forall|m: int| #![trigger views(results@)[m]] from <= m < views(results@).len() implies
                        views(results@)[m].len() > path0.len()
                        && targets@.subrange(k as int, targets@.len() as int).contains(views(results@)[m][path0.len() as int]) by {
                        let y = views(results@)[m][path0.len() as int];
                        let x = choose|x: int| 0 <= x < targets@.subrange(k + 1, targets@.len() as int).len()
                            && #[trigger] targets@.subrange(k + 1, targets@.len() as int)[x] == y;
                        assert(targets@.subrange(k as int, targets@.len() as int)[x + 1] == y);
                    }
                    assert forall|p: Seq<usize>| is_route_to(graph, p, end) && #[trigger] extends(path0, p) && p.len() > path0.len()
                        && targets@.subrange(k as int, targets@.len() as int).contains(p[path0.len() as int])
                        implies covered(views(results@), from, p) by {
                        if p[path0.len() as int] == nb {
                            if path0.contains(nb) {
                                let i = choose|i: int| 0 <= i < path0.len() && path0[i] == nb;
                                assert(p.subrange(0, path0.len() as int)[i] == p[i]);
                                assert(p[i] == p[path0.len() as int]);
                            }
                        } else {
                            let sub = targets@.subrange(k as int, targets@.len() as int);
                            let x = choose|x: int| 0 <= x < sub.len() && sub[x] == p[path0.len() as int];
                            assert(x != 0);
                            assert(targets@.subrange(k + 1, targets@.len() as int)[x - 1] == p[path0.len() as int]);
                        }
                    }
                }
            }
        }
        proof {
            assert forall|p: Seq<usize>| is_route_to(graph, p, end) && #[trigger] extends(path0, p)
                implies covered(views(results@), from, p) by {
                if p.len() == path0.len() {
                    assert(p =~= path0);
                }
                let i = path0.len() - 1;
                assert(p.subrange(0, path0.len() as int)[i] == p[i]);
                assert(p[i] == current);
                assert(graph.edge(p[i] as int, p[i + 1] as int));
                assert(graph.adj(current as int).contains(p[path0.len() as int]));
                assert(targets@.subrange(0, targets@.len() as int) =~= targets@);
            }
        }
    }

    /// Every route from `start` to `end`, longest delay first, or `None`
    /// when the two are the same node or no route joins them.
    fn find_all_paths(graph: &DirectedGraph, delay_profiles: &Vec<DelayProfile>, start: usize, end: usize, threshold_us: u64)
        -> (r: Option<Vec<TimingPath>>)
        requires
            graph.wf(),
            start < graph.n(),
            delay_profiles@.len() == graph.n(),
            profiles_bounded(delay_profiles@),
        ensures
            start == end ==> r is None,
            start != end ==> (r is None <==> forall|p: Seq<usize>| !#[trigger] is_route(graph, p, start, end)),
            r is Some ==> r->0@.len() > 0,
            r is Some ==> forall|k: int| 0 <= k < r->0@.len() ==>
                #[trigger] describes_route(graph, delay_profiles@, start, end, r->0@[k]),
            r is Some ==> forall|p: Seq<usize>| #[trigger] is_route(graph, p, start, end) ==> exists|k: int|
                0 <= k < r->0@.len() && #[trigger] describes(r->0@[k], graph, delay_profiles@, p),
            r is Some ==> forall|a: int, b: int| 0 <= a < b < r->0@.len() ==>
                (#[trigger] r->0@[a]).total_delay_us >= (#[trigger] r->0@[b]).total_delay_us,
            r is Some ==> exists|ps: Seq<Seq<usize>>| #[trigger] route_listing(graph, delay_profiles@, start, end, ps, r->0@),
    {
        if start == end {
            return None;
        }
        let mut path: Vec<usize> = Vec::new();
        path.push(start);
        let mut results: Vec<Vec<usize>> = Vec::new();
        proof {
            assert(is_walk(graph, path@));
            assert(views(results@) =~= Seq::<Seq<usize>>::empty());
        }
        Self::explore(graph, end, 1, &mut path, &mut results);
        let ghost rs = views(results@);
        proof {
            assert forall|p: Seq<usize>| #[trigger] is_route(graph, p, start, end) implies covered(rs, 0, p) by {
                assert(p.subrange(0, 1) =~= seq![start]);
                assert(extends(seq![start], p));
            }
            assert forall|k: int| 0 <= k < rs.len() implies #[trigger] is_route(graph, rs[k], start, end) by {
                assert(is_route_to(graph, rs[k], end) && extends(seq![start], rs[k]));
                assert(rs[k].subrange(0, 1)[0] == rs[k][0]);
            }
        }
        if results.len() == 0 {
            proof {
                assert forall|p: Seq<usize>| !#[trigger] is_route(graph, p, start, end) by {
                    if is_route(graph, p, start, end) {
                        assert(covered(rs, 0, p));
                    }
                }
            }
            return None;
        }
        let mut totals: Vec<u64> = Vec::new();
        let mut i: usize = 0;
        while i < results.len()
            invariant
                graph.wf(),
                rs == views(results@),
                delay_profiles@.len() == graph.n(),
                profiles_bounded(delay_profiles@),
                forall|k: int| 0 <= k < rs.len() ==> #[trigger] is_route(graph, rs[k], start, end),
                i <= results@.len(),
                totals@.len() == i,
                forall|k: int| 0 <= k < i ==> #[trigger] totals@[k] == path_delay(delay_profiles@, rs[k]),
            decreases results@.len() - i,
        {
            assert(is_route(graph, rs[i as int], start, end));
            assert(results@[i as int]@ == rs[i as int]);
            let t = route_delay(delay_profiles, &results[i]);
            totals.push(t);
            i = i + 1;
        }
        let order = sort_by_total_desc(&totals);
        let mut paths: Vec<TimingPath> = Vec::new();
        let mut q: usize = 0;
        while q < order.len()
            invariant
                graph.wf(),
                rs == views(results@),
                delay_profiles@.len() == graph.n(),
                profiles_bounded(delay_profiles@),
                forall|k: int| 0 <= k < rs.len() ==> #[trigger] is_route(graph, rs[k], start, end),
                totals@.len() == rs.len(),
                forall|k: int| 0 <= k < rs.len() ==> #[trigger] totals@[k] == path_delay(delay_profiles@, rs[k]),
                order@.len() == totals@.len(),
                forall|k: int| 0 <= k < order@.len() ==> #[trigger] order@[k] < totals@.len(),
                q <= order@.len(),
                paths@.len() == q,
                forall|k: int| 0 <= k < q ==> #[trigger] describes(paths@[k], graph, delay_profiles@, rs[order@[k] as int]),
            decreases order@.len() - q,
        {
            let idx = order[q];
            assert(is_route(graph, rs[idx as int], start, end));
            assert(results@[idx as int]@ == rs[idx as int]);
            let tp = make_timing_path(graph, delay_profiles, &results[idx]);
            paths.push(tp);
            q = q + 1;
        }
        let r = Some(paths);
        proof {
            assert(is_route(graph, rs[0], start, end));
            lemma_found_paths(graph, delay_profiles@, start, end, rs, totals@, order@, r->0@);
            assert(rs.subrange(0, rs.len() as int) =~= rs);
            lemma_found_listing(graph, delay_profiles@, start, end, rs, totals@, order@, r->0@);
        }
        r
    }

    /// Searches the routes from `t` to `e` and records them.
    #[verifier::rlimit(40)]
    fn record_pair(
        graph: &DirectedGraph,
        profiles: &Vec<DelayProfile>,
        t: usize,
        e: usize,
        threshold_us: u64,
        all: &mut Vec<TimingPath>,
        critical: &mut Vec<TimingPath>,
        violations: &mut Vec<TimingViolation>,
    )
        requires
            graph.wf(),
            t < graph.n(),
            profiles@.len() == graph.n(),
            profiles_bounded(profiles@),
            violations_match(old(all)@, old(critical)@, old(violations)@, threshold_us),
        ensures
            violations_match(final(all)@, final(critical)@, final(violations)@, threshold_us),
            old(all)@.len() <= final(all)@.len(),
            path_views(final(all)@).take(old(all)@.len() as int) == path_views(old(all)@),
            forall|k: int| old(all)@.len() <= k < final(all)@.len() ==>
                #[trigger] describes_route(graph, profiles@, t, e, final(all)@[k]),
            t != e ==> forall|p: Seq<usize>| #[trigger] is_route(graph, p, t, e) ==> listed(final(all)@, graph, profiles@, p),
            t != e ==> exists|ps: Seq<Seq<usize>>| #[trigger] route_listing(graph, profiles@, t, e, ps,
                final(all)@.subrange(old(all)@.len() as int, final(all)@.len() as int)),
            t == e ==> final(all)@.len() == old(all)@.len(),
            forall|j: int, j2: int| old(all)@.len() <= j < j2 < final(all)@.len() ==>
                (#[trigger] final(all)@[j]).total_delay_us >= (#[trigger] final(all)@[j2]).total_delay_us,
    {
        let ghost a0 = all@;
        let found = Self::find_all_paths(graph, profiles, t, e, threshold_us);
        match found {
            Some(paths) => {
                record_paths(&paths, threshold_us, all, critical, violations);
                proof {
                    let a1 = all@;
                    assert(path_views(a1).len() == a1.len());
                    assert(path_views(a1).take(a0.len() as int) =~= path_views(a0));
                    assert forall|k: int| a0.len() <= k < a1.len() implies
                        #[trigger] describes_route(graph, profiles@, t, e, a1[k]) by {
                        let j = k - a0.len();
                        assert(describes_route(graph, profiles@, t, e, paths@[j]));
                        let p = choose|p: Seq<usize>| is_route(graph, p, t, e) && #[trigger] describes(paths@[j], graph, profiles@, p);
                        lemma_appended_describes(a0, paths@, a1, graph, profiles@, j, p);
                    }
                    assert forall|p: Seq<usize>| #[trigger] is_route(graph, p, t, e) implies listed(a1, graph, profiles@, p) by {
                        let j = choose|j: int| 0 <= j < paths@.len() && #[trigger] describes(paths@[j], graph, profiles@, p);
                        lemma_appended_describes(a0, paths@, a1, graph, profiles@, j, p);
                    }
                    let ps = choose|ps: Seq<Seq<usize>>| #[trigger] route_listing(graph, profiles@, t, e, ps, paths@);
                    let seg = a1.subrange(a0.len() as int, a1.len() as int);
                    assert forall|k: int| 0 <= k < ps.len() implies is_route(graph, #[trigger] ps[k], t, e)
                        && describes(seg[k], graph, profiles@, ps[k]) by {
                        lemma_appended_describes(a0, paths@, a1, graph, profiles@, k, ps[k]);
                    }
                    assert(route_listing(graph, profiles@, t, e, ps, seg));
                    assert forall|j: int, j2: int| a0.len() <= j < j2 < a1.len() implies
                        (#[trigger] a1[j]).total_delay_us >= (#[trigger] a1[j2]).total_delay_us by {
                        let x = j - a0.len();
                        let y = j2 - a0.len();
                        assert(path_views(a1).len() == a1.len());
                        assert(path_views(a1)[j] == (path_views(a0) + path_views(paths@))[j]);
                        assert(path_views(a1)[j2] == (path_views(a0) + path_views(paths@))[j2]);
                        assert(path_views(paths@)[x] == path_view(paths@[x]));
                        assert(path_views(paths@)[y] == path_view(paths@[y]));
                        assert(path_views(a1)[j] == path_view(a1[j]));
                        assert(path_views(a1)[j2] == path_view(a1[j2]));
                        assert(paths@[x].total_delay_us >= paths@[y].total_delay_us);
                    }
                }
            }
            None => {
                proof {
                    assert(path_views(all@).take(a0.len() as int) =~= path_views(a0));
                    if t != e {
                        let seg = all@.subrange(a0.len() as int, all@.len() as int);
                        assert(seg.len() == 0);
                        assert(route_listing(graph, profiles@, t, e, Seq::<Seq<usize>>::empty(), seg));
                    }
                }
            }
        }
    }

    /// Records the routes from every trigger to every terminal, trigger by
    /// trigger, terminal by terminal.
    fn collect_paths(
        graph: &DirectedGraph,
        profiles: &Vec<DelayProfile>,
        triggers: &Vec<usize>,
        terminals: &Vec<usize>,
        threshold_us: u64,
    ) -> (r: (Vec<TimingPath>, Vec<TimingPath>, Vec<TimingViolation>))
        requires
            graph.wf(),
            profiles@.len() == graph.n(),
            profiles_bounded(profiles@),
            forall|a: int| 0 <= a < triggers@.len() ==> #[trigger] triggers@[a] < graph.n(),
            triggers@.no_duplicates(),
            terminals@.no_duplicates(),
        ensures
            violations_match(r.0@, r.1@, r.2@, threshold_us),
            exists|ps: Seq<Seq<usize>>| #[trigger] all_routes_listing(graph, profiles@, triggers@, terminals@, ps, r.0@)
                && listing_in_order(graph, triggers@, terminals@, ps, r.0@),
            forall|k: int| 0 <= k < r.0@.len() ==>
                #[trigger] relay_to_breaker(graph, profiles@, triggers@, terminals@, r.0@[k]),
            forall|a: int, b: int, p: Seq<usize>| 0 <= a < triggers@.len() && 0 <= b < terminals@.len()
                && triggers@[a] != terminals@[b] && #[trigger] is_route(graph, p, triggers@[a], terminals@[b])
                ==> listed(r.0@, graph, profiles@, p),
    {
        let mut all: Vec<TimingPath> = Vec::new();
        let mut critical: Vec<TimingPath> = Vec::new();
        let mut violations: Vec<TimingViolation> = Vec::new();
        proof {
            assert(path_views(all@) =~= Seq::<PathView>::empty());
            assert(path_views(critical@) =~= Seq::<PathView>::empty());
            reveal(Seq::filter);
            assert(path_views(all@).filter(|v: PathView| over_threshold(v, threshold_us)) =~= Seq::<PathView>::empty());
        }
        let ghost mut ps_all: Seq<Seq<usize>> = Seq::empty();
        let mut ti: usize = 0;
        while ti < triggers.len()
            invariant
                graph.wf(),
                profiles@.len() == graph.n(),
                profiles_bounded(profiles@),
                forall|a: int| 0 <= a < triggers@.len() ==> #[trigger] triggers@[a] < graph.n(),
                ti <= triggers@.len(),
                violations_match(all@, critical@, violations@, threshold_us),
                forall|k: int| 0 <= k < all@.len() ==>
                    #[trigger] relay_to_breaker(graph, profiles@, triggers@, terminals@, all@[k]),
                forall|a: int, b: int, p: Seq<usize>| 0 <= a < ti && 0 <= b < terminals@.len()
                    && triggers@[a] != terminals@[b] && #[trigger] is_route(graph, p, triggers@[a], terminals@[b])
                    ==> listed(all@, graph, profiles@, p),
                triggers@.no_duplicates(),
                terminals@.no_duplicates(),
                listing_so_far(graph, profiles@, triggers@, terminals@, ti as int, 0, ps_all, all@),
                listing_in_order(graph, triggers@, terminals@, ps_all, all@),
            decreases triggers@.len() - ti,
        {
            let mut ei: usize = 0;
            while ei < terminals.len()
                invariant
                    graph.wf(),
                    profiles@.len() == graph.n(),
                    profiles_bounded(profiles@),
                    forall|a: int| 0 <= a < triggers@.len() ==> #[trigger] triggers@[a] < graph.n(),
                    ti < triggers@.len(),
                    ei <= terminals@.len(),
                    violations_match(all@, critical@, violations@, threshold_us),
                    forall|k: int| 0 <= k < all@.len() ==>
                        #[trigger] relay_to_breaker(graph, profiles@, triggers@, terminals@, all@[k]),
                    forall|a: int, b: int, p: Seq<usize>| 0 <= a < triggers@.len() && 0 <= b < terminals@.len()
                        && (a < ti || (a == ti && b < ei))
                        && triggers@[a] != terminals@[b] && #[trigger] is_route(graph, p, triggers@[a], terminals@[b])
                        ==> listed(all@, graph, profiles@, p),
                    triggers@.no_duplicates(),
                    terminals@.no_duplicates(),
                    listing_so_far(graph, profiles@, triggers@, terminals@, ti as int, ei as int, ps_all, all@),
                    listing_in_order(graph, triggers@, terminals@, ps_all, all@),
                decreases terminals@.len() - ei,
            {
                let t = triggers[ti];
                let e = terminals[ei];
                let ghost a0 = all@;
                Self::record_pair(graph, profiles, t, e, threshold_us, &mut all, &mut critical, &mut violations);
                proof {
                    let ps_new = if t != e {
                        choose|ps: Seq<Seq<usize>>| #[trigger] route_listing(graph, profiles@, t, e, ps,
                            all@.subrange(a0.len() as int, all@.len() as int))
                    } else {
                        Seq::<Seq<usize>>::empty()
                    };
                    lemma_listing_append(graph, profiles@, triggers@, terminals@, ti as int, ei as int, ps_all, ps_new, a0, all@);
                    ps_all = ps_all + ps_new;
                }
                proof {
                    let a1 = all@;
                    assert forall|k: int| 0 <= k < a1.len() implies
                        #[trigger] relay_to_breaker(graph, profiles@, triggers@, terminals@, a1[k]) by {
                        if k < a0.len() {
                            assert(relay_to_breaker(graph, profiles@, triggers@, terminals@, a0[k]));
                            let (a, b) = choose|a: int, b: int| 0 <= a < triggers@.len() && 0 <= b < terminals@.len()
                                && #[trigger] describes_route(graph, profiles@, triggers@[a], terminals@[b], a0[k]);
                            let p = choose|p: Seq<usize>| is_route(graph, p, triggers@[a], terminals@[b])
                                && #[trigger] describes(a0[k], graph, profiles@, p);
                            lemma_prefix_describes(a0, a1, graph, profiles@, k, p);
                            assert(describes_route(graph, profiles@, triggers@[a], terminals@[b], a1[k]));
                        } else {
                            assert(describes_route(graph, profiles@, triggers@[ti as int], terminals@[ei as int], a1[k]));
                        }
                    }
                    assert forall|a: int, b: int, p: Seq<usize>| 0 <= a < triggers@.len() && 0 <= b < terminals@.len()
                        && (a < ti || (a == ti && b < ei + 1))
                        && triggers@[a] != terminals@[b] && #[trigger] is_route(graph, p, triggers@[a], terminals@[b])
                        implies listed(a1, graph, profiles@, p) by {
                        if a == ti && b == ei {
                        } else {
                            assert(listed(a0, graph, profiles@, p));
                            let k = choose|k: int| 0 <= k < a0.len() && #[trigger] describes(a0[k], graph, profiles@, p);
                            lemma_prefix_describes(a0, a1, graph, profiles@, k, p);
                        }
                    }
                }
                ei = ei + 1;
            }
            proof {
                lemma_listing_next_row(graph, profiles@, triggers@, terminals@, ti as int, ps_all, all@);
            }
            ti = ti + 1;
        }
        proof {
            assert(all_routes_listing(graph, profiles@, triggers@, terminals@, ps_all, all@));
            assert(listing_in_order(graph, triggers@, terminals@, ps_all, all@));
        }
        (all, critical, violations)
    }

    /// The timing of protection signals in `graph`: the roles and delays of
    /// the nodes, an order to pass signals on in, the arrival times it gives,
    /// every route from a relay to a breaker-side node, and the routes whose
    /// delay exceeds `threshold_ms`.
    pub fn analyze(graph: &DirectedGraph, threshold_ms: u64) -> (r: TimingAnalysisResult)
        requires
            graph.wf(),
            threshold_ms * 1000 <= u64::MAX,
        ensures
            r.threshold_ms == threshold_ms,
            r.node_delay_profiles@ == profiles_before(graph, graph.n()),
            r.protection_triggers@ == nodes_where(graph.n(), |i: int| is_trigger(graph, i)),
            r.breaker_terminals@ == nodes_where(graph.n(), |i: int| is_terminal(graph, i)),
            r.has_cycles == (cyclic_part(graph) != Set::<usize>::empty()),
            !r.has_cycles ==> is_topological_order(graph, r.topological_order@) && is_kahn_order(graph, r.topological_order@),
            r.has_cycles ==> exists|starts: Seq<usize>| #[trigger] fallback_shape(graph, starts, r.topological_order@)
                && (forall|a: int, b: int| 0 <= a < b < starts.len() ==> starts[a] < starts[b])
                && (forall|v: usize| starts.contains(v) <==> cyclic_part(graph).contains(v)),
            is_node_permutation(graph, r.topological_order@),
            r.node_arrival_times@ == arrivals(graph, totals_of(r.node_delay_profiles@), r.topological_order@),
            !r.has_cycles ==> latest_arrivals(graph, totals_of(r.node_delay_profiles@), r.node_arrival_times@),
            forall|k: int| 0 <= k < r.all_paths@.len() ==> #[trigger] relay_to_breaker(
                graph, r.node_delay_profiles@, r.protection_triggers@, r.breaker_terminals@, r.all_paths@[k]),
            forall|a: int, b: int, p: Seq<usize>| 0 <= a < r.protection_triggers@.len() && 0 <= b < r.breaker_terminals@.len()
                && r.protection_triggers@[a] != r.breaker_terminals@[b]
                && #[trigger] is_route(graph, p, r.protection_triggers@[a], r.breaker_terminals@[b])
                ==> listed(r.all_paths@, graph, r.node_delay_profiles@, p),
            violations_match(r.all_paths@, r.critical_paths@, r.violations@, (threshold_ms * 1000) as u64),
            exists|ps: Seq<Seq<usize>>| #[trigger] all_routes_listing(graph, r.node_delay_profiles@,
                r.protection_triggers@, r.breaker_terminals@, ps, r.all_paths@)
                && listing_in_order(graph, r.protection_triggers@, r.breaker_terminals@, ps, r.all_paths@),
    {
        let n = graph.node_count();
        let roles = Self::node_roles(graph);
        let profiles = Self::profiles_of_roles(&roles);
        proof {
            assert(profiles@ =~= profiles_before(graph, graph.n()));
            assert forall|i: int| 0 <= i < profiles@.len() implies #[trigger] profiles@[i].spec_total() <= 1_000_000 by {
                lemma_profile_bounded(roles@[i]);
            }
        }
        let (triggers, terminals) = Self::endpoints(graph, &roles);
        proof {
            lemma_nodes_where_below(graph.n(), |i: int| is_trigger(graph, i));
            lemma_nodes_where_distinct(graph.n(), |i: int| is_trigger(graph, i));
            lemma_nodes_where_distinct(graph.n(), |i: int| is_terminal(graph, i));
        }
        let topo = KahnTopoSort::sort(graph);
        let has_cycles = topo.is_err();
        let ghost mut starts_w: Seq<usize> = Seq::empty();
        let order = match topo {
            Ok(order) => order,
            Err(cyclic) => {
                proof {
                    assert forall|k: int| 0 <= k < cyclic@.len() implies #[trigger] cyclic@[k] < graph.n() by {
                        assert(cyclic@.contains(cyclic@[k]));
                        assert(cyclic_part(graph).contains(cyclic@[k]));
                        let v = cyclic@[k];
                        let s = choose|s: Set<usize>| #[trigger] fed_from_within(graph, s) && s.contains(v);
                    }
                }
                let fb = Self::fallback_order(graph, &cyclic);
                proof {
                    starts_w = cyclic@;
                    assert(fallback_shape(graph, starts_w, fb@));
                }
                fb
            }
        };
        let mut delays: Vec<u64> = Vec::new();
        let mut i: usize = 0;
        while i < profiles.len()
            invariant
                i <= profiles@.len(),
                profiles_bounded(profiles@),
                delays@ == totals_of(profiles@).take(i as int),
            decreases profiles@.len() - i,
        {
            proof { assert(profiles@[i as int].spec_total() <= 1_000_000); }
            delays.push(profiles[i].total_us());
            proof { assert(delays@ =~= totals_of(profiles@).take(i + 1)); }
            i = i + 1;
        }
        proof { assert(totals_of(profiles@).take(i as int) =~= totals_of(profiles@)); }
        let arrival = Self::arrival_times(graph, &delays, &order);
        let ghost order_view = order@;
        proof { assert(graph.nodes@.len() == graph.nodes.len()); }
        let threshold_us = threshold_ms * 1000;
        let (all_paths, critical_paths, violations) =
            Self::collect_paths(graph, &profiles, &triggers, &terminals, threshold_us);
        let ghost ps_w = choose|ps: Seq<Seq<usize>>| #[trigger] all_routes_listing(graph, profiles@, triggers@, terminals@, ps, all_paths@)
            && listing_in_order(graph, triggers@, terminals@, ps, all_paths@);
        proof {
            assert(all_routes_listing(graph, profiles@, triggers@, terminals@, ps_w, all_paths@));
        }
        let r = TimingAnalysisResult {
            threshold_ms,
            topological_order: order,
            node_arrival_times: arrival,
            node_delay_profiles: profiles,
            critical_paths,
            all_paths,
            protection_triggers: triggers,
            breaker_terminals: terminals,
            violations,
            has_cycles,
        };
        proof {
            assert(all_routes_listing(graph, r.node_delay_profiles@, r.protection_triggers@, r.breaker_terminals@, ps_w, r.all_paths@));
            assert(listing_in_order(graph, r.protection_triggers@, r.breaker_terminals@, ps_w, r.all_paths@));
            if has_cycles {
                assert(fallback_shape(graph, starts_w, r.topological_order@));
            } else {
                lemma_arrivals_along_topological_order(graph, delays@, order_view);
            }
        }
        r
    }

    /// The mean (rounded down), largest and smallest total delay of `paths`;
    /// `None` when there is no path.
    pub fn delay_summary(paths: &Vec<TimingPath>) -> (r: Option<(u64, u64, u64)>)
        requires
            delay_sum(paths@) <= u64::MAX,
        ensures
            r is None <==> paths@.len() == 0,
            r matches Some(t) ==> t.0 == delay_sum(paths@) / (paths@.len() as nat)
                && t.1 == delay_max(paths@) && t.2 == delay_min(paths@),
    {
        let n = paths.len();
        if n == 0 {
            return None;
        }
        let mut sum: u64 = 0;
        let mut max: u64 = 0;
        let mut min: u64 = paths[0].total_delay_us;
        let mut i: usize = 0;
        while i < n
            invariant
                n == paths@.len(),
                n > 0,
                i <= n,
                delay_sum(paths@) <= u64::MAX,
                sum == delay_sum(paths@.take(i as int)),
                max == delay_max(paths@.take(i as int)),
                i > 0 ==> min == delay_min(paths@.take(i as int)),
                i == 0 ==> min == paths@[0].total_delay_us,
            decreases n - i,
        {
            proof {
                assert(paths@.take(i + 1).drop_last() =~= paths@.take(i as int));
                assert(paths@.take(i + 1).last() == paths@[i as int]);
                lemma_delay_sum_prefix(paths@, i + 1);
                if i == 0 {
                    assert(paths@.take(1)[0] == paths@[0]);
                }
            }
            let t = paths[i].total_delay_us;
            sum = sum + t;
            if t > max {
                max = t;
            }
            if i > 0 && t < min {
                min = t;
            }
            i = i + 1;
        }
        proof { assert(paths@.take(i as int) =~= paths@); }
        Some((sum / (n as u64), max, min))
    }

    /// The delay profile of a role.
    pub fn get_delay_profile(role: &IEDRole) -> (p: DelayProfile)
        ensures
            p == profile_of(*role),
    {
        match role {
            IEDRole::ProtectionRelay => DelayProfile::protection_device(),
            IEDRole::MergingUnit => DelayProfile::merging_unit(),
            IEDRole::BayControlUnit => DelayProfile::bay_control(),
            IEDRole::CircuitBreaker => DelayProfile::circuit_breaker(),
            IEDRole::Switch => DelayProfile::switch_node(),
            IEDRole::MonitoringDevice => DelayProfile {
                internal_processing_us: 180,
                bus_forwarding_us: 45,
                switch_backplane_us: 100,
                network_propagation_us: 50,
            },
            IEDRole::Unknown => DelayProfile::default(),
        }
    }
}

impl Default for TimingAnalyzer {
    /// The same as `new`.
    fn default() -> (r: Self)
        ensures
            r == TimingAnalyzer,
    {
        TimingAnalyzer::new()
    }
}

} // verus!
