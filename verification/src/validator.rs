//! Checks of a configuration and its graph against the isolation rules of
//! protection signalling.

use vstd::prelude::*;

use crate::graph::digraph::{all_access_points, ied_access_points, ApEntry};
use crate::graph::facts::{is_scc_partition, is_walk, reaches, views};
use crate::graph::scc::{is_tarjan_listing, TarjanSCC};
use crate::graph::timing::{mentions_any, node_label, nodes_where};
use crate::hashing::{
    block_set_contains, block_set_contents, block_set_insert, block_set_new, index_set_contains,
    index_set_contents, index_set_insert, index_set_new, vlan_map_contents, vlan_map_get, vlan_map_new,
    vlan_map_push, vlans_under, zone_map_contents, zone_map_get, zone_map_insert, zone_map_is_empty,
    zone_map_new, BlockKey, BlockSet, IndexSet, VlanContents, VlanMap, ZoneContents,
};
use crate::model::{
    AccessPoint, DirectedGraph, IsolationViolation, SCDModel, SubNetwork, ViolationSeverity, ViolationType,
    VirtualTerminal, IED,
};
use crate::text::{contains_text, decimal, label, make_label, occurs_in, to_upper, uppercase, usize_text};

verus! {

/// The contents of a violation, its texts taken by their characters.
pub type ViolationView = (Seq<char>, ViolationSeverity, Seq<Seq<char>>, ViolationType);

/// The contents of a violation.
pub open spec fn violation_view(v: IsolationViolation) -> ViolationView {
    (v.description@, v.severity, v.involved_nodes@.map_values(|s: String| s@), v.violation_type)
}

/// The contents of a list of violations.
pub open spec fn violation_views(vs: Seq<IsolationViolation>) -> Seq<ViolationView> {
    vs.map_values(|v: IsolationViolation| violation_view(v))
}

/// The labels of a list of nodes.
pub open spec fn labels_of(g: &DirectedGraph, vs: Seq<usize>) -> Seq<Seq<char>> {
    vs.map_values(|v: usize| node_label(g, v as int))
}

// ----- loops -----

/// The description of a loop of `size` nodes.
pub open spec fn loop_desc(size: nat) -> Seq<char> {
    "检测到信号环路，包含 "@ + decimal(size) + " 个节点，违反继电保护单向传输原则"@
}

/// One violation for each part with more than one node, in order.
pub open spec fn loop_views(g: &DirectedGraph, parts: Seq<Seq<usize>>) -> Seq<ViolationView>
    decreases parts.len(),
{
    if parts.len() == 0 {
        Seq::empty()
    } else {
        let prev = loop_views(g, parts.drop_last());
        let c = parts.last();
        if c.len() > 1 {
            prev.push((loop_desc(c.len()), ViolationSeverity::Critical, labels_of(g, c), ViolationType::LoopDetected))
        } else {
            prev
        }
    }
}

/// `v` is the loop violation of a part of `parts` with more than one node.
pub open spec fn loop_cause(g: &DirectedGraph, parts: Seq<Seq<usize>>, v: ViolationView) -> bool {
    exists|c: int| 0 <= c < parts.len() && (#[trigger] parts[c]).len() > 1
        && v == (loop_desc(parts[c].len()), ViolationSeverity::Critical, labels_of(g, parts[c]), ViolationType::LoopDetected)
}

/// Each loop violation is a critical one about a part with more than one
/// node, and there is one exactly when some part has more than one node.
pub proof fn lemma_loop_views_cause(g: &DirectedGraph, parts: Seq<Seq<usize>>)
    ensures
        forall|m: int| 0 <= m < loop_views(g, parts).len() ==> loop_cause(g, parts, #[trigger] loop_views(g, parts)[m]),
        loop_views(g, parts).len() > 0 <==> exists|c: int| 0 <= c < parts.len() && (#[trigger] parts[c]).len() > 1,
    decreases parts.len(),
{
    if parts.len() > 0 {
        let p = parts.drop_last();
        lemma_loop_views_cause(g, p);
        let r = loop_views(g, parts);
        let r0 = loop_views(g, p);
        let n = parts.len() - 1;
        assert(parts[n] == parts.last());
        assert forall|m: int| 0 <= m < r.len() implies loop_cause(g, parts, #[trigger] r[m]) by {
            if m < r0.len() {
                assert(r[m] == r0[m]);
                assert(loop_cause(g, p, r0[m]));
                let c = choose|c: int| 0 <= c < p.len() && (#[trigger] p[c]).len() > 1
                    && r0[m] == (loop_desc(p[c].len()), ViolationSeverity::Critical, labels_of(g, p[c]), ViolationType::LoopDetected);
                assert(parts[c] == p[c]);
            }
        }
        if exists|c: int| 0 <= c < parts.len() && (#[trigger] parts[c]).len() > 1 {
            let c = choose|c: int| 0 <= c < parts.len() && (#[trigger] parts[c]).len() > 1;
            if c < n {
                assert(p[c] == parts[c]);
            }
        }
        if exists|c: int| 0 <= c < p.len() && (#[trigger] p[c]).len() > 1 {
            let c = choose|c: int| 0 <= c < p.len() && (#[trigger] p[c]).len() > 1;
            assert(parts[c] == p[c]);
        }
    }
}

// ----- redundant edges -----

/// The entries of `row` that repeat an earlier entry, in order.
pub open spec fn dup_entries(row: Seq<usize>) -> Seq<usize>
    decreases row.len(),
{
    if row.len() == 0 {
        Seq::empty()
    } else {
        let prev = dup_entries(row.drop_last());
        if row.drop_last().contains(row.last()) { prev.push(row.last()) } else { prev }
    }
}

/// The description of a node with `count` repeated edges.
pub open spec fn redundant_desc(g: &DirectedGraph, u: int, count: nat) -> Seq<char> {
    "检测到冗余路径: "@ + node_label(g, u) + " 存在 "@ + decimal(count) + " 条重复连接"@
}

/// One violation for each of the first `k` nodes whose edge list repeats an entry.
pub open spec fn redundant_views(g: &DirectedGraph, k: int) -> Seq<ViolationView>
    decreases k,
{
    if k <= 0 {
        Seq::empty()
    } else {
        let prev = redundant_views(g, k - 1);
        let d = dup_entries(g.adj(k - 1));
        if d.len() > 0 {
            prev.push((redundant_desc(g, k - 1, d.len()), ViolationSeverity::Low,
                seq![node_label(g, k - 1)] + labels_of(g, d), ViolationType::RedundantPath))
        } else {
            prev
        }
    }
}

/// A list without repeats has no repeated entry.
proof fn lemma_no_dup_entries(row: Seq<usize>)
    requires
        row.no_duplicates(),
    ensures
        dup_entries(row).len() == 0,
    decreases row.len(),
{
    if row.len() > 0 {
        let init = row.drop_last();
        assert forall|i: int, j: int| 0 <= i < j < init.len() implies init[i] != init[j] by {
            assert(init[i] == row[i] && init[j] == row[j]);
        }
        lemma_no_dup_entries(init);
        if init.contains(row.last()) {
            let i = choose|i: int| 0 <= i < init.len() && init[i] == row.last();
            assert(row[i] == row[row.len() - 1]);
        }
    }
}

/// In a well-formed graph no edge list repeats an entry, so the check for
/// repeated edges finds nothing.
pub proof fn lemma_wf_graph_has_no_redundant_paths(g: &DirectedGraph, k: int)
    requires
        g.wf(),
        k <= g.n(),
    ensures
        redundant_views(g, k) == Seq::<ViolationView>::empty(),
    decreases k,
{
    if k > 0 {
        lemma_wf_graph_has_no_redundant_paths(g, k - 1);
        lemma_no_dup_entries(g.adj(k - 1));
    }
}

// ----- protection reaching process level -----

/// An upper-case name that marks a protection device.
pub open spec fn protection_name(upper: Seq<char>) -> bool {
    occurs_in("PROT"@, upper) || occurs_in("PROTECTION"@, upper) || occurs_in("保护"@, upper)
        || occurs_in("继电保护"@, upper) || occurs_in("线路保护"@, upper) || occurs_in("主变保护"@, upper)
}

/// An upper-case name that marks a process-level device.
pub open spec fn process_name(upper: Seq<char>) -> bool {
    occurs_in("PROCESS"@, upper) || occurs_in("过程层"@, upper) || occurs_in("SV"@, upper)
        || occurs_in("SMV"@, upper)
}

/// The keywords that mark a protection device.
pub open spec fn protection_name_keywords() -> Seq<Seq<char>> {
    seq!["PROT"@, "PROTECTION"@, "保护"@, "继电保护"@, "线路保护"@, "主变保护"@]
}

/// The keywords that mark a process-level device.
pub open spec fn process_name_keywords() -> Seq<Seq<char>> {
    seq!["PROCESS"@, "过程层"@, "SV"@, "SMV"@]
}

/// A name marks a protection device exactly when it mentions one of the
/// protection keywords, and a process-level device exactly when it mentions
/// one of the process keywords.
pub proof fn lemma_device_name_keywords(upper: Seq<char>)
    ensures
        protection_name(upper) <==> mentions_any(protection_name_keywords(), upper),
        process_name(upper) <==> mentions_any(process_name_keywords(), upper),
{
    let pk = protection_name_keywords();
    let qk = process_name_keywords();
    if mentions_any(pk, upper) {
        let i = choose|i: int| 0 <= i < pk.len() && occurs_in(#[trigger] pk[i], upper);
        assert(i == 0 || i == 1 || i == 2 || i == 3 || i == 4 || i == 5);
    }
    if protection_name(upper) {
        if occurs_in(pk[0], upper) {} else if occurs_in(pk[1], upper) {} else if occurs_in(pk[2], upper) {}
        else if occurs_in(pk[3], upper) {} else if occurs_in(pk[4], upper) {} else { assert(occurs_in(pk[5], upper)); }
    }
    if mentions_any(qk, upper) {
        let i = choose|i: int| 0 <= i < qk.len() && occurs_in(#[trigger] qk[i], upper);
        assert(i == 0 || i == 1 || i == 2 || i == 3);
    }
    if process_name(upper) {
        if occurs_in(qk[0], upper) {} else if occurs_in(qk[1], upper) {} else if occurs_in(qk[2], upper) {}
        else { assert(occurs_in(qk[3], upper)); }
    }
}

/// Node `i` is a protection device by its IED name.
pub open spec fn is_protection_node(g: &DirectedGraph, i: int) -> bool {
    protection_name(uppercase(g.nodes@[i].ied_name@))
}

/// Node `i` is a process-level device by its IED name.
pub open spec fn is_process_node(g: &DirectedGraph, i: int) -> bool {
    process_name(uppercase(g.nodes@[i].ied_name@))
}

/// The description of protection node `p` reaching process node `q`.
pub open spec fn reach_desc(g: &DirectedGraph, p: int, q: int) -> Seq<char> {
    "保护装置直连过程层设备: "@ + node_label(g, p) + " -> "@ + node_label(g, q) + " 可能存在安全风险"@
}

/// One violation for each of `procs` that `p` reaches, in order.
pub open spec fn reach_row(g: &DirectedGraph, p: usize, procs: Seq<usize>) -> Seq<ViolationView>
    decreases procs.len(),
{
    if procs.len() == 0 {
        Seq::empty()
    } else {
        let prev = reach_row(g, p, procs.drop_last());
        let q = procs.last();
        if reaches(g, p, q) {
            prev.push((reach_desc(g, p as int, q as int), ViolationSeverity::Medium,
                seq![node_label(g, p as int), node_label(g, q as int)], ViolationType::CrossZoneConnection))
        } else {
            prev
        }
    }
}

/// For each of `prots` in order, the violations of `reach_row`.
pub open spec fn reach_views(g: &DirectedGraph, prots: Seq<usize>, procs: Seq<usize>) -> Seq<ViolationView>
    decreases prots.len(),
{
    if prots.len() == 0 {
        Seq::empty()
    } else {
        reach_views(g, prots.drop_last(), procs) + reach_row(g, prots.last(), procs)
    }
}

/// The violation of protection node `p` reaching process node `q`.
pub open spec fn reach_violation(g: &DirectedGraph, p: int, q: int) -> ViolationView {
    (reach_desc(g, p, q), ViolationSeverity::Medium, seq![node_label(g, p), node_label(g, q)], ViolationType::CrossZoneConnection)
}

/// `v` is the violation of `p` reaching one of `procs`.
pub open spec fn reach_row_cause(g: &DirectedGraph, p: usize, procs: Seq<usize>, v: ViolationView) -> bool {
    exists|b: int| 0 <= b < procs.len() && reaches(g, p, #[trigger] procs[b]) && v == reach_violation(g, p as int, procs[b] as int)
}

/// `v` is the violation of one of `prots` reaching one of `procs`.
pub open spec fn reach_cause(g: &DirectedGraph, prots: Seq<usize>, procs: Seq<usize>, v: ViolationView) -> bool {
    exists|a: int| 0 <= a < prots.len() && reach_row_cause(g, #[trigger] prots[a], procs, v)
}

/// The violations of one protection node are those of the process nodes it
/// reaches, one for each.
proof fn lemma_reach_row(g: &DirectedGraph, p: usize, procs: Seq<usize>)
    ensures
        forall|m: int| 0 <= m < reach_row(g, p, procs).len() ==> reach_row_cause(g, p, procs, #[trigger] reach_row(g, p, procs)[m]),
        forall|b: int| 0 <= b < procs.len() && reaches(g, p, #[trigger] procs[b]) ==>
            reported(reach_row(g, p, procs), reach_violation(g, p as int, procs[b] as int)),
    decreases procs.len(),
{
    if procs.len() > 0 {
        let q0 = procs.drop_last();
        lemma_reach_row(g, p, q0);
        let n = procs.len() - 1;
        assert(procs[n] == procs.last());
        let r = reach_row(g, p, procs);
        let r0 = reach_row(g, p, q0);
        assert forall|m: int| 0 <= m < r.len() implies reach_row_cause(g, p, procs, #[trigger] r[m]) by {
            if m < r0.len() {
                assert(r[m] == r0[m]);
                assert(reach_row_cause(g, p, q0, r0[m]));
                let b = choose|b: int| 0 <= b < q0.len() && reaches(g, p, #[trigger] q0[b]) && r0[m] == reach_violation(g, p as int, q0[b] as int);
                assert(procs[b] == q0[b]);
            } else {
                assert(reaches(g, p, procs[n]));
            }
        }
        assert forall|b: int| 0 <= b < procs.len() && reaches(g, p, #[trigger] procs[b]) implies
            reported(r, reach_violation(g, p as int, procs[b] as int)) by {
            if b < n {
                assert(q0[b] == procs[b]);
                assert(reaches(g, p, q0[b]));
                let m = choose|m: int| 0 <= m < r0.len() && #[trigger] r0[m] == reach_violation(g, p as int, q0[b] as int);
                assert(r[m] == r0[m]);
            } else {
                assert(r[r0.len() as int] == reach_violation(g, p as int, procs[b] as int));
            }
        }
    }
}

/// Each violation about protection devices reaching process-level devices is
/// the medium-severity one of one of `prots` reaching one of `procs`, and
/// each such pair has one.
pub proof fn lemma_reach_views(g: &DirectedGraph, prots: Seq<usize>, procs: Seq<usize>)
    ensures
        forall|m: int| 0 <= m < reach_views(g, prots, procs).len() ==> reach_cause(g, prots, procs, #[trigger] reach_views(g, prots, procs)[m]),
        forall|a: int, b: int| 0 <= a < prots.len() && 0 <= b < procs.len() && reaches(g, #[trigger] prots[a], #[trigger] procs[b]) ==>
            reported(reach_views(g, prots, procs), reach_violation(g, prots[a] as int, procs[b] as int)),
    decreases prots.len(),
{
    if prots.len() > 0 {
        let p0 = prots.drop_last();
        let n = prots.len() - 1;
        let last = prots.last();
        assert(prots[n] == last);
        lemma_reach_views(g, p0, procs);
        lemma_reach_row(g, last, procs);
        let r0 = reach_views(g, p0, procs);
        let rr = reach_row(g, last, procs);
        let r = reach_views(g, prots, procs);
        assert(r == r0 + rr);
        assert forall|m: int| 0 <= m < r.len() implies reach_cause(g, prots, procs, #[trigger] r[m]) by {
            if m < r0.len() {
                assert(r[m] == r0[m]);
                assert(reach_cause(g, p0, procs, r0[m]));
                let a = choose|a: int| 0 <= a < p0.len() && reach_row_cause(g, #[trigger] p0[a], procs, r0[m]);
                assert(prots[a] == p0[a]);
            } else {
                let q = m - r0.len();
                assert(r[m] == rr[q]);
                assert(reach_row_cause(g, prots[n], procs, rr[q]));
            }
        }
        assert forall|a: int, b: int| 0 <= a < prots.len() && 0 <= b < procs.len() && reaches(g, #[trigger] prots[a], #[trigger] procs[b]) implies
            reported(r, reach_violation(g, prots[a] as int, procs[b] as int)) by {
            if a < n {
                assert(p0[a] == prots[a]);
                assert(reaches(g, p0[a], procs[b]));
                let m = choose|m: int| 0 <= m < r0.len() && #[trigger] r0[m] == reach_violation(g, p0[a] as int, procs[b] as int);
                assert(r[m] == r0[m]);
            } else {
                assert(reaches(g, last, procs[b]));
                let m = choose|m: int| 0 <= m < rr.len() && #[trigger] rr[m] == reach_violation(g, last as int, procs[b] as int);
                assert(r[r0.len() + m] == rr[m]);
            }
        }
    }
}

// ----- zones -----

/// The zone table after the pairs `pairs` are put in zone `zone`, later
/// entries replacing earlier ones.
pub open spec fn zone_pairs(m: ZoneContents, pairs: Seq<(String, String)>, zone: Seq<char>) -> ZoneContents
    decreases pairs.len(),
{
    if pairs.len() == 0 {
        m
    } else {
        zone_pairs(m, pairs.drop_last(), zone).insert((pairs.last().0@, pairs.last().1@), zone)
    }
}

/// The zone of each (IED, access point) pair: the last subnetwork that lists it.
pub open spec fn zones_of(subnets: Seq<SubNetwork>) -> ZoneContents
    decreases subnets.len(),
{
    if subnets.len() == 0 {
        ZoneContents::empty()
    } else {
        zone_pairs(zones_of(subnets.drop_last()), subnets.last().access_points@, subnets.last().name@)
    }
}

/// One of `pairs` is the pair `k`.
pub open spec fn pair_listed(pairs: Seq<(String, String)>, k: (Seq<char>, Seq<char>)) -> bool {
    exists|i: int| 0 <= i < pairs.len() && (#[trigger] pairs[i]).0@ == k.0 && pairs[i].1@ == k.1
}

/// Putting pairs in a zone gives each of them that zone and leaves the
/// other pairs as they were.
proof fn lemma_zone_pairs(m: ZoneContents, pairs: Seq<(String, String)>, zone: Seq<char>, k: (Seq<char>, Seq<char>))
    ensures
        zone_pairs(m, pairs, zone).dom().contains(k) <==> m.dom().contains(k) || pair_listed(pairs, k),
        pair_listed(pairs, k) ==> zone_pairs(m, pairs, zone)[k] == zone,
        !pair_listed(pairs, k) && m.dom().contains(k) ==> zone_pairs(m, pairs, zone)[k] == m[k],
    decreases pairs.len(),
{
    if pairs.len() > 0 {
        let p = pairs.drop_last();
        lemma_zone_pairs(m, p, zone, k);
        let n = pairs.len() - 1;
        assert(pairs[n] == pairs.last());
        if pair_listed(pairs, k) && !pair_listed(p, k) {
            let i = choose|i: int| 0 <= i < pairs.len() && (#[trigger] pairs[i]).0@ == k.0 && pairs[i].1@ == k.1;
            if i < n {
                assert(p[i] == pairs[i]);
            }
        }
        if pair_listed(p, k) {
            let i = choose|i: int| 0 <= i < p.len() && (#[trigger] p[i]).0@ == k.0 && p[i].1@ == k.1;
            assert(pairs[i] == p[i]);
        }
    }
}

/// A pair is in a zone exactly when some subnetwork lists it, and its zone is
/// the name of the last subnetwork that lists it.
pub proof fn lemma_zones_of(subnets: Seq<SubNetwork>, k: (Seq<char>, Seq<char>))
    ensures
        zones_of(subnets).dom().contains(k) <==> exists|b: int| 0 <= b < subnets.len() && pair_listed((#[trigger] subnets[b]).access_points@, k),
        zones_of(subnets).dom().contains(k) ==> exists|b: int| 0 <= b < subnets.len()
            && pair_listed((#[trigger] subnets[b]).access_points@, k) && zones_of(subnets)[k] == subnets[b].name@
            && forall|b2: int| b < b2 < subnets.len() ==> !pair_listed((#[trigger] subnets[b2]).access_points@, k),
    decreases subnets.len(),
{
    if subnets.len() > 0 {
        let p = subnets.drop_last();
        let n = subnets.len() - 1;
        let last = subnets.last();
        assert(subnets[n] == last);
        lemma_zones_of(p, k);
        lemma_zone_pairs(zones_of(p), last.access_points@, last.name@, k);
        if exists|b: int| 0 <= b < p.len() && pair_listed((#[trigger] p[b]).access_points@, k) {
            let b = choose|b: int| 0 <= b < p.len() && pair_listed((#[trigger] p[b]).access_points@, k);
            assert(subnets[b] == p[b]);
        }
        if exists|b: int| 0 <= b < subnets.len() && pair_listed((#[trigger] subnets[b]).access_points@, k) {
            let b = choose|b: int| 0 <= b < subnets.len() && pair_listed((#[trigger] subnets[b]).access_points@, k);
            if b < n {
                assert(p[b] == subnets[b]);
            }
        }
        if zones_of(subnets).dom().contains(k) {
            if pair_listed(last.access_points@, k) {
                assert(pair_listed(subnets[n].access_points@, k));
            } else {
                let b = choose|b: int| 0 <= b < p.len()
                    && pair_listed((#[trigger] p[b]).access_points@, k) && zones_of(p)[k] == p[b].name@
                    && forall|b2: int| b < b2 < p.len() ==> !pair_listed((#[trigger] p[b2]).access_points@, k);
                assert(subnets[b] == p[b]);
                assert forall|b2: int| b < b2 < subnets.len() implies !pair_listed((#[trigger] subnets[b2]).access_points@, k) by {
                    if b2 < n {
                        assert(p[b2] == subnets[b2]);
                    }
                }
            }
        }
    }
}

/// The description of an edge from node `u` to node `v` across zones.
pub open spec fn cross_desc(g: &DirectedGraph, u: int, v: int, fz: Seq<char>, tz: Seq<char>) -> Seq<char> {
    "跨安全分区连接: "@ + node_label(g, u) + " -> "@ + node_label(g, v) + " ("@ + fz + " -> "@ + tz + ")"@
}

/// One violation for each of the edges from `u` to `targets` whose ends lie
/// in two different zones.
pub open spec fn cross_row(g: &DirectedGraph, zones: ZoneContents, u: int, targets: Seq<usize>) -> Seq<ViolationView>
    decreases targets.len(),
{
    if targets.len() == 0 {
        Seq::empty()
    } else {
        let prev = cross_row(g, zones, u, targets.drop_last());
        let v = targets.last() as int;
        let fk = g.nodes@[u].key();
        let tk = g.nodes@[v].key();
        if zones.dom().contains(fk) && zones.dom().contains(tk) && zones[fk] != zones[tk] {
            prev.push((cross_desc(g, u, v, zones[fk], zones[tk]), ViolationSeverity::High,
                seq![node_label(g, u), node_label(g, v)], ViolationType::CrossZoneConnection))
        } else {
            prev
        }
    }
}

/// The cross-zone violations of the edges leaving the first `k` nodes.
pub open spec fn cross_rows(g: &DirectedGraph, zones: ZoneContents, k: int) -> Seq<ViolationView>
    decreases k,
{
    if k <= 0 {
        Seq::empty()
    } else {
        cross_rows(g, zones, k - 1) + cross_row(g, zones, k - 1, g.adj(k - 1))
    }
}

/// The edge from `u` to `v` has both ends in zones, and the zones differ.
pub open spec fn crosses_zones(g: &DirectedGraph, zones: ZoneContents, u: int, v: int) -> bool {
    let fk = g.nodes@[u].key();
    let tk = g.nodes@[v].key();
    zones.dom().contains(fk) && zones.dom().contains(tk) && zones[fk] != zones[tk]
}

/// The violation of an edge from `u` to `v` across zones.
pub open spec fn cross_violation(g: &DirectedGraph, zones: ZoneContents, u: int, v: int) -> ViolationView {
    (cross_desc(g, u, v, zones[g.nodes@[u].key()], zones[g.nodes@[v].key()]), ViolationSeverity::High,
        seq![node_label(g, u), node_label(g, v)], ViolationType::CrossZoneConnection)
}

/// `v` is among the violations `vs`.
pub open spec fn reported(vs: Seq<ViolationView>, v: ViolationView) -> bool {
    exists|m: int| 0 <= m < vs.len() && #[trigger] vs[m] == v
}

/// `v` is the violation of an edge from `u` to one of `targets` that crosses
/// zones.
pub open spec fn cross_target_cause(g: &DirectedGraph, zones: ZoneContents, u: int, targets: Seq<usize>, v: ViolationView) -> bool {
    exists|i: int| 0 <= i < targets.len() && crosses_zones(g, zones, u, #[trigger] targets[i] as int)
        && v == cross_violation(g, zones, u, targets[i] as int)
}

/// `v` is the violation of an edge leaving one of the first `k` nodes that
/// crosses zones.
pub open spec fn cross_cause(g: &DirectedGraph, zones: ZoneContents, k: int, v: ViolationView) -> bool {
    exists|u: int, i: int| 0 <= u < k && 0 <= i < g.adj(u).len() && crosses_zones(g, zones, u, #[trigger] g.adj(u)[i] as int)
        && v == cross_violation(g, zones, u, g.adj(u)[i] as int)
}

/// The violations of one node's edges are those of the edges to `targets`
/// that cross zones, one for each.
proof fn lemma_cross_row(g: &DirectedGraph, zones: ZoneContents, u: int, targets: Seq<usize>)
    ensures
        forall|m: int| 0 <= m < cross_row(g, zones, u, targets).len()
            ==> cross_target_cause(g, zones, u, targets, #[trigger] cross_row(g, zones, u, targets)[m]),
        forall|i: int| 0 <= i < targets.len() && crosses_zones(g, zones, u, #[trigger] targets[i] as int) ==>
            reported(cross_row(g, zones, u, targets), cross_violation(g, zones, u, targets[i] as int)),
    decreases targets.len(),
{
    if targets.len() > 0 {
        let t0 = targets.drop_last();
        lemma_cross_row(g, zones, u, t0);
        let r = cross_row(g, zones, u, targets);
        let r0 = cross_row(g, zones, u, t0);
        let n = targets.len() - 1;
        assert(targets[n] == targets.last());
        assert forall|m: int| 0 <= m < r.len() implies cross_target_cause(g, zones, u, targets, #[trigger] r[m]) by {
            if m < r0.len() {
                assert(r[m] == r0[m]);
                assert(cross_target_cause(g, zones, u, t0, r0[m]));
                let i = choose|i: int| 0 <= i < t0.len() && crosses_zones(g, zones, u, #[trigger] t0[i] as int)
                    && r0[m] == cross_violation(g, zones, u, t0[i] as int);
                assert(targets[i] == t0[i]);
            } else {
                assert(crosses_zones(g, zones, u, targets[n] as int));
            }
        }
        assert forall|i: int| 0 <= i < targets.len() && crosses_zones(g, zones, u, #[trigger] targets[i] as int) implies
            reported(r, cross_violation(g, zones, u, targets[i] as int)) by {
            if i < n {
                assert(t0[i] == targets[i]);
                assert(crosses_zones(g, zones, u, t0[i] as int));
                assert(reported(r0, cross_violation(g, zones, u, t0[i] as int)));
                let m = choose|m: int| 0 <= m < r0.len() && #[trigger] r0[m] == cross_violation(g, zones, u, t0[i] as int);
                assert(r[m] == r0[m]);
            } else {
                assert(r[r0.len() as int] == cross_violation(g, zones, u, targets[i] as int));
            }
        }
    }
}

/// The cross-zone violations of the edges leaving the first `k` nodes are
/// those of the edges that cross zones: each violation is the high-severity
/// one of such an edge, and each such edge has one.
pub proof fn lemma_cross_rows(g: &DirectedGraph, zones: ZoneContents, k: int)
    ensures
        forall|m: int| 0 <= m < cross_rows(g, zones, k).len() ==> cross_cause(g, zones, k, #[trigger] cross_rows(g, zones, k)[m]),
        forall|u: int, i: int| 0 <= u < k && 0 <= i < g.adj(u).len() && crosses_zones(g, zones, u, #[trigger] g.adj(u)[i] as int) ==>
            reported(cross_rows(g, zones, k), cross_violation(g, zones, u, g.adj(u)[i] as int)),
    decreases k,
{
    if k > 0 {
        lemma_cross_rows(g, zones, k - 1);
        lemma_cross_row(g, zones, k - 1, g.adj(k - 1));
        let r0 = cross_rows(g, zones, k - 1);
        let rr = cross_row(g, zones, k - 1, g.adj(k - 1));
        let r = cross_rows(g, zones, k);
        assert(r == r0 + rr);
        assert forall|m: int| 0 <= m < r.len() implies cross_cause(g, zones, k, #[trigger] r[m]) by {
            if m < r0.len() {
                assert(r[m] == r0[m]);
                assert(cross_cause(g, zones, k - 1, r0[m]));
                let (u, i) = choose|u: int, i: int| 0 <= u < k - 1 && 0 <= i < g.adj(u).len()
                    && crosses_zones(g, zones, u, #[trigger] g.adj(u)[i] as int) && r0[m] == cross_violation(g, zones, u, g.adj(u)[i] as int);
                assert(crosses_zones(g, zones, u, g.adj(u)[i] as int));
            } else {
                let q = m - r0.len();
                assert(r[m] == rr[q]);
                assert(cross_target_cause(g, zones, k - 1, g.adj(k - 1), rr[q]));
                let i = choose|i: int| 0 <= i < g.adj(k - 1).len() && crosses_zones(g, zones, k - 1, #[trigger] g.adj(k - 1)[i] as int)
                    && rr[q] == cross_violation(g, zones, k - 1, g.adj(k - 1)[i] as int);
                assert(crosses_zones(g, zones, k - 1, g.adj(k - 1)[i] as int));
            }
        }
        assert forall|u: int, i: int| 0 <= u < k && 0 <= i < g.adj(u).len() && crosses_zones(g, zones, u, #[trigger] g.adj(u)[i] as int) implies
            reported(r, cross_violation(g, zones, u, g.adj(u)[i] as int)) by {
            if u < k - 1 {
                assert(reported(r0, cross_violation(g, zones, u, g.adj(u)[i] as int)));
                let m = choose|m: int| 0 <= m < r0.len() && #[trigger] r0[m] == cross_violation(g, zones, u, g.adj(u)[i] as int);
                assert(r[m] == r0[m]);
            } else {
                assert(reported(rr, cross_violation(g, zones, u, g.adj(u)[i] as int)));
                let m = choose|m: int| 0 <= m < rr.len() && #[trigger] rr[m] == cross_violation(g, zones, u, g.adj(u)[i] as int);
                assert(r[r0.len() + m] == rr[m]);
            }
        }
    }
}

/// The cross-zone violations of a graph: none when no subnetwork lists a pair.
pub open spec fn cross_views(g: &DirectedGraph, subnets: Seq<SubNetwork>) -> Seq<ViolationView> {
    let zones = zones_of(subnets);
    if zones.dom() == Set::<(Seq<char>, Seq<char>)>::empty() { Seq::empty() } else { cross_rows(g, zones, g.n()) }
}

// ----- control blocks -----

/// The key of the control block a terminal refers to.
pub open spec fn block_key(vt: VirtualTerminal) -> BlockKey {
    (vt.ied_name@, vt.ap_name@, vt.cb_name@)
}

/// The VLAN table after the terminals `vts` that carry a VLAN are added.
pub open spec fn add_vlans(m: VlanContents, vts: Seq<VirtualTerminal>) -> VlanContents
    decreases vts.len(),
{
    if vts.len() == 0 {
        m
    } else {
        let m2 = add_vlans(m, vts.drop_last());
        let vt = vts.last();
        match vt.vlan_id {
            Some(v) => m2.insert(block_key(vt), vlans_under(m2, block_key(vt)).push(v@)),
            None => m2,
        }
    }
}

/// The VLANs each control block is published with, over the access points
/// `entries`: GOOSE blocks then SV blocks of each.
pub open spec fn vlan_table(entries: Seq<ApEntry>) -> VlanContents
    decreases entries.len(),
{
    if entries.len() == 0 {
        VlanContents::empty()
    } else {
        let ap = entries.last().1;
        add_vlans(add_vlans(vlan_table(entries.drop_last()), ap.goose_pubs@), ap.sv_pubs@)
    }
}

/// One of the terminals `vts` refers to block `k` and carries VLAN `x`.
pub open spec fn carries_vlan(vts: Seq<VirtualTerminal>, k: BlockKey, x: Seq<char>) -> bool {
    exists|i: int| 0 <= i < vts.len() && block_key(#[trigger] vts[i]) == k && vts[i].vlan_id is Some && vts[i].vlan_id->0@ == x
}

/// Adding terminals adds exactly the VLANs they carry under their blocks.
proof fn lemma_add_vlans(m: VlanContents, vts: Seq<VirtualTerminal>, k: BlockKey, x: Seq<char>)
    ensures
        vlans_under(add_vlans(m, vts), k).contains(x) <==> vlans_under(m, k).contains(x) || carries_vlan(vts, k, x),
    decreases vts.len(),
{
    if vts.len() > 0 {
        let p = vts.drop_last();
        lemma_add_vlans(m, p, k, x);
        let n = vts.len() - 1;
        let vt = vts.last();
        assert(vts[n] == vt);
        let m2 = add_vlans(m, p);
        if vt.vlan_id is Some && block_key(vt) == k {
            let v = vt.vlan_id->0;
            assert(vlans_under(add_vlans(m, vts), k) == vlans_under(m2, k).push(v@));
            vstd::seq_lib::lemma_seq_contains_after_push(vlans_under(m2, k), v@, x);
        }
        if carries_vlan(vts, k, x) && !carries_vlan(p, k, x) {
            let i = choose|i: int| 0 <= i < vts.len() && block_key(#[trigger] vts[i]) == k && vts[i].vlan_id is Some && vts[i].vlan_id->0@ == x;
            if i < n {
                assert(p[i] == vts[i]);
            }
        }
        if carries_vlan(p, k, x) {
            let i = choose|i: int| 0 <= i < p.len() && block_key(#[trigger] p[i]) == k && p[i].vlan_id is Some && p[i].vlan_id->0@ == x;
            assert(vts[i] == p[i]);
        }
    }
}

/// A VLAN is listed for a control block exactly when some access point of
/// `entries` publishes that block, by GOOSE or by SV, with that VLAN.
pub proof fn lemma_vlan_table(entries: Seq<ApEntry>, k: BlockKey, x: Seq<char>)
    ensures
        vlans_under(vlan_table(entries), k).contains(x) <==> exists|e: int| 0 <= e < entries.len()
            && (carries_vlan((#[trigger] entries[e]).1.goose_pubs@, k, x) || carries_vlan(entries[e].1.sv_pubs@, k, x)),
    decreases entries.len(),
{
    if entries.len() > 0 {
        let p = entries.drop_last();
        let ap = entries.last().1;
        let n = entries.len() - 1;
        assert(entries[n] == entries.last());
        lemma_vlan_table(p, k, x);
        lemma_add_vlans(vlan_table(p), ap.goose_pubs@, k, x);
        lemma_add_vlans(add_vlans(vlan_table(p), ap.goose_pubs@), ap.sv_pubs@, k, x);
        if exists|e: int| 0 <= e < p.len() && (carries_vlan((#[trigger] p[e]).1.goose_pubs@, k, x) || carries_vlan(p[e].1.sv_pubs@, k, x)) {
            let e = choose|e: int| 0 <= e < p.len() && (carries_vlan((#[trigger] p[e]).1.goose_pubs@, k, x) || carries_vlan(p[e].1.sv_pubs@, k, x));
            assert(entries[e] == p[e]);
        }
        if exists|e: int| 0 <= e < entries.len() && (carries_vlan((#[trigger] entries[e]).1.goose_pubs@, k, x) || carries_vlan(entries[e].1.sv_pubs@, k, x)) {
            let e = choose|e: int| 0 <= e < entries.len() && (carries_vlan((#[trigger] entries[e]).1.goose_pubs@, k, x) || carries_vlan(entries[e].1.sv_pubs@, k, x));
            if e < n {
                assert(p[e] == entries[e]);
            }
        }
    } else {
        assert(vlans_under(vlan_table(entries), k) =~= Seq::<Seq<char>>::empty());
    }
}

/// The VLAN violation of a subscription `vt` of access point `ap` of IED
/// `ied`.
pub open spec fn vlan_violation(table: VlanContents, ied: Seq<char>, ap: Seq<char>, vt: VirtualTerminal) -> ViolationView {
    (vlan_desc(ied, ap, vt.cb_name@, vt.vlan_id->0@, table[block_key(vt)][0]), ViolationSeverity::Medium,
        seq![label(vt.ied_name@, vt.ap_name@), label(ied, ap)], ViolationType::VlanMismatch)
}

/// The subscription `vt` names a VLAN its block is published with none of.
pub open spec fn vlan_mismatch(table: VlanContents, vt: VirtualTerminal) -> bool {
    vlans_under(table, block_key(vt)).len() > 0 && vt.vlan_id is Some && !vlans_under(table, block_key(vt)).contains(vt.vlan_id->0@)
}

/// `v` is the VLAN violation of a GOOSE subscription of some access point of
/// `entries` whose VLAN its block is published with none of.
pub open spec fn vlan_cause(table: VlanContents, entries: Seq<ApEntry>, v: ViolationView) -> bool {
    exists|e: int, i: int| 0 <= e < entries.len() && 0 <= i < entries[e].1.goose_subs@.len()
        && vlan_mismatch(table, #[trigger] entries[e].1.goose_subs@[i])
        && v == vlan_violation(table, entries[e].0, entries[e].1.name@, entries[e].1.goose_subs@[i])
}

/// Each VLAN violation is the medium-severity one of a GOOSE subscription
/// whose VLAN is not among those its block is published with, and each such
/// subscription has one.
pub proof fn lemma_vlan_views(table: VlanContents, entries: Seq<ApEntry>)
    ensures
        forall|m: int| 0 <= m < vlan_views(table, entries).len() ==> vlan_cause(table, entries, #[trigger] vlan_views(table, entries)[m]),
        forall|e: int, i: int| 0 <= e < entries.len() && 0 <= i < entries[e].1.goose_subs@.len()
            && vlan_mismatch(table, #[trigger] entries[e].1.goose_subs@[i]) ==>
            reported(vlan_views(table, entries), vlan_violation(table, entries[e].0, entries[e].1.name@, entries[e].1.goose_subs@[i])),
    decreases entries.len(),
{
    if entries.len() > 0 {
        let p = entries.drop_last();
        let en = entries.last();
        let n = entries.len() - 1;
        assert(entries[n] == en);
        lemma_vlan_views(table, p);
        lemma_vlan_sub_views(table, en.0, en.1.name@, en.1.goose_subs@);
        let r0 = vlan_views(table, p);
        let rs = vlan_sub_views(table, en.0, en.1.name@, en.1.goose_subs@);
        let r = vlan_views(table, entries);
        assert(r == r0 + rs);
        assert forall|m: int| 0 <= m < r.len() implies vlan_cause(table, entries, #[trigger] r[m]) by {
            if m < r0.len() {
                assert(r[m] == r0[m]);
                assert(vlan_cause(table, p, r0[m]));
                let (e, i) = choose|e: int, i: int| 0 <= e < p.len() && 0 <= i < p[e].1.goose_subs@.len()
                    && vlan_mismatch(table, #[trigger] p[e].1.goose_subs@[i])
                    && r0[m] == vlan_violation(table, p[e].0, p[e].1.name@, p[e].1.goose_subs@[i]);
                assert(entries[e] == p[e]);
                assert(vlan_mismatch(table, entries[e].1.goose_subs@[i]));
            } else {
                let q = m - r0.len();
                assert(r[m] == rs[q]);
                assert(vlan_sub_cause(table, en.0, en.1.name@, en.1.goose_subs@, rs[q]));
                let i = choose|i: int| 0 <= i < en.1.goose_subs@.len() && vlan_mismatch(table, #[trigger] en.1.goose_subs@[i])
                    && rs[q] == vlan_violation(table, en.0, en.1.name@, en.1.goose_subs@[i]);
                assert(vlan_mismatch(table, entries[n].1.goose_subs@[i]));
            }
        }
        assert forall|e: int, i: int| 0 <= e < entries.len() && 0 <= i < entries[e].1.goose_subs@.len()
            && vlan_mismatch(table, #[trigger] entries[e].1.goose_subs@[i]) implies
            reported(r, vlan_violation(table, entries[e].0, entries[e].1.name@, entries[e].1.goose_subs@[i])) by {
            if e < n {
                assert(p[e] == entries[e]);
                assert(vlan_mismatch(table, p[e].1.goose_subs@[i]));
                let m = choose|m: int| 0 <= m < r0.len() && #[trigger] r0[m] == vlan_violation(table, p[e].0, p[e].1.name@, p[e].1.goose_subs@[i]);
                assert(r[m] == r0[m]);
            } else {
                assert(vlan_mismatch(table, en.1.goose_subs@[i]));
                let m = choose|m: int| 0 <= m < rs.len() && #[trigger] rs[m] == vlan_violation(table, en.0, en.1.name@, en.1.goose_subs@[i]);
                assert(r[r0.len() + m] == rs[m]);
            }
        }
    }
}

/// `v` is the VLAN violation of one of `subs` whose VLAN does not match.
pub open spec fn vlan_sub_cause(table: VlanContents, ied: Seq<char>, ap: Seq<char>, subs: Seq<VirtualTerminal>, v: ViolationView) -> bool {
    exists|i: int| 0 <= i < subs.len() && vlan_mismatch(table, #[trigger] subs[i]) && v == vlan_violation(table, ied, ap, subs[i])
}

/// The violations of the subscriptions `subs` are those of the ones whose
/// VLAN does not match.
proof fn lemma_vlan_sub_views(table: VlanContents, ied: Seq<char>, ap: Seq<char>, subs: Seq<VirtualTerminal>)
    ensures
        forall|m: int| 0 <= m < vlan_sub_views(table, ied, ap, subs).len()
            ==> vlan_sub_cause(table, ied, ap, subs, #[trigger] vlan_sub_views(table, ied, ap, subs)[m]),
        forall|i: int| 0 <= i < subs.len() && vlan_mismatch(table, #[trigger] subs[i]) ==>
            reported(vlan_sub_views(table, ied, ap, subs), vlan_violation(table, ied, ap, subs[i])),
    decreases subs.len(),
{
    if subs.len() > 0 {
        let p = subs.drop_last();
        lemma_vlan_sub_views(table, ied, ap, p);
        let n = subs.len() - 1;
        assert(subs[n] == subs.last());
        let r = vlan_sub_views(table, ied, ap, subs);
        let r0 = vlan_sub_views(table, ied, ap, p);
        let vt = subs.last();
        assert(vlan_mismatch(table, vt) <==> (table.dom().contains(block_key(vt)) && table[block_key(vt)].len() > 0
            && vt.vlan_id is Some && !table[block_key(vt)].contains(vt.vlan_id->0@)));
        assert forall|m: int| 0 <= m < r.len() implies vlan_sub_cause(table, ied, ap, subs, #[trigger] r[m]) by {
            if m < r0.len() {
                assert(r[m] == r0[m]);
                assert(vlan_sub_cause(table, ied, ap, p, r0[m]));
                let i = choose|i: int| 0 <= i < p.len() && vlan_mismatch(table, #[trigger] p[i]) && r0[m] == vlan_violation(table, ied, ap, p[i]);
                assert(subs[i] == p[i]);
            } else {
                assert(vlan_mismatch(table, subs[n]));
            }
        }
        assert forall|i: int| 0 <= i < subs.len() && vlan_mismatch(table, #[trigger] subs[i]) implies
            reported(r, vlan_violation(table, ied, ap, subs[i])) by {
            if i < n {
                assert(p[i] == subs[i]);
                assert(vlan_mismatch(table, p[i]));
                let m = choose|m: int| 0 <= m < r0.len() && #[trigger] r0[m] == vlan_violation(table, ied, ap, p[i]);
                assert(r[m] == r0[m]);
            } else {
                assert(r[r0.len() as int] == vlan_violation(table, ied, ap, subs[i]));
            }
        }
    }
}

/// The description of a subscription on another VLAN than its publisher's.
pub open spec fn vlan_desc(ied: Seq<char>, ap: Seq<char>, cb: Seq<char>, sub_vlan: Seq<char>, pub_vlan: Seq<char>) -> Seq<char> {
    "GOOSE 订阅 VLAN 不匹配: "@ + label(ied, ap) + "."@ + cb + " 订阅 VLAN="@ + sub_vlan + ", 发布 VLAN="@ + pub_vlan
}

/// The VLAN violations of the subscriptions `subs` of access point `ap` of IED `ied`.
pub open spec fn vlan_sub_views(table: VlanContents, ied: Seq<char>, ap: Seq<char>, subs: Seq<VirtualTerminal>) -> Seq<ViolationView>
    decreases subs.len(),
{
    if subs.len() == 0 {
        Seq::empty()
    } else {
        let prev = vlan_sub_views(table, ied, ap, subs.drop_last());
        let vt = subs.last();
        let k = block_key(vt);
        if table.dom().contains(k) && table[k].len() > 0 && vt.vlan_id is Some && !table[k].contains(vt.vlan_id->0@) {
            prev.push((vlan_desc(ied, ap, vt.cb_name@, vt.vlan_id->0@, table[k][0]), ViolationSeverity::Medium,
                seq![label(vt.ied_name@, vt.ap_name@), label(ied, ap)], ViolationType::VlanMismatch))
        } else {
            prev
        }
    }
}

/// The VLAN violations of the GOOSE subscriptions of `entries`.
pub open spec fn vlan_views(table: VlanContents, entries: Seq<ApEntry>) -> Seq<ViolationView>
    decreases entries.len(),
{
    if entries.len() == 0 {
        Seq::empty()
    } else {
        let e = entries.last();
        vlan_views(table, entries.drop_last()) + vlan_sub_views(table, e.0, e.1.name@, e.1.goose_subs@)
    }
}

/// The control blocks of `vts` added to `s`.
pub open spec fn add_keys(s: Set<BlockKey>, vts: Seq<VirtualTerminal>) -> Set<BlockKey>
    decreases vts.len(),
{
    if vts.len() == 0 { s } else { add_keys(s, vts.drop_last()).insert(block_key(vts.last())) }
}

/// Every control block published by `entries`.
pub open spec fn published_blocks(entries: Seq<ApEntry>) -> Set<BlockKey>
    decreases entries.len(),
{
    if entries.len() == 0 {
        Set::empty()
    } else {
        let ap = entries.last().1;
        add_keys(add_keys(published_blocks(entries.drop_last()), ap.goose_pubs@), ap.sv_pubs@)
    }
}

/// `k` is the block of one of the terminals `vts`.
pub open spec fn keyed_in(vts: Seq<VirtualTerminal>, k: BlockKey) -> bool {
    exists|i: int| 0 <= i < vts.len() && block_key(#[trigger] vts[i]) == k
}

/// Adding the blocks of terminals adds exactly their keys.
proof fn lemma_add_keys_member(s: Set<BlockKey>, vts: Seq<VirtualTerminal>, k: BlockKey)
    ensures
        add_keys(s, vts).contains(k) <==> s.contains(k) || keyed_in(vts, k),
    decreases vts.len(),
{
    if vts.len() > 0 {
        let p = vts.drop_last();
        lemma_add_keys_member(s, p, k);
        if keyed_in(vts, k) && !keyed_in(p, k) {
            let i = choose|i: int| 0 <= i < vts.len() && block_key(#[trigger] vts[i]) == k;
            if i < p.len() {
                assert(p[i] == vts[i]);
            }
        }
        if keyed_in(p, k) {
            let i = choose|i: int| 0 <= i < p.len() && block_key(#[trigger] p[i]) == k;
            assert(vts[i] == p[i]);
        }
        if block_key(vts.last()) == k {
            assert(vts[vts.len() - 1] == vts.last());
        }
    } else {
        assert(!keyed_in(vts, k));
    }
}

/// A control block counts as published exactly when some access point of
/// `entries` publishes it, by GOOSE or by SV.
pub proof fn lemma_published_blocks_member(entries: Seq<ApEntry>, k: BlockKey)
    ensures
        published_blocks(entries).contains(k) <==> exists|e: int| 0 <= e < entries.len()
            && (keyed_in((#[trigger] entries[e]).1.goose_pubs@, k) || keyed_in(entries[e].1.sv_pubs@, k)),
    decreases entries.len(),
{
    if entries.len() > 0 {
        let p = entries.drop_last();
        let ap = entries.last().1;
        lemma_published_blocks_member(p, k);
        lemma_add_keys_member(published_blocks(p), ap.goose_pubs@, k);
        lemma_add_keys_member(add_keys(published_blocks(p), ap.goose_pubs@), ap.sv_pubs@, k);
        if exists|e: int| 0 <= e < p.len() && (keyed_in((#[trigger] p[e]).1.goose_pubs@, k) || keyed_in(p[e].1.sv_pubs@, k)) {
            let e = choose|e: int| 0 <= e < p.len() && (keyed_in((#[trigger] p[e]).1.goose_pubs@, k) || keyed_in(p[e].1.sv_pubs@, k));
            assert(entries[e] == p[e]);
        }
        if exists|e: int| 0 <= e < entries.len() && (keyed_in((#[trigger] entries[e]).1.goose_pubs@, k) || keyed_in(entries[e].1.sv_pubs@, k)) {
            let e = choose|e: int| 0 <= e < entries.len() && (keyed_in((#[trigger] entries[e]).1.goose_pubs@, k) || keyed_in(entries[e].1.sv_pubs@, k));
            if e < p.len() {
                assert(p[e] == entries[e]);
            } else {
                assert(entries[e] == entries.last());
            }
        }
        assert(entries[entries.len() - 1] == entries.last());
    }
}

/// The description of a subscription to a block nobody publishes; `prefix`
/// names the service.
pub open spec fn unauth_desc(prefix: Seq<char>, ied: Seq<char>, ap: Seq<char>, vt: VirtualTerminal) -> Seq<char> {
    prefix + label(ied, ap) + " 订阅不存在的发布 "@ + label(vt.ied_name@, vt.ap_name@) + "."@ + vt.cb_name@
}

/// The violations of the subscriptions `subs` to blocks not in `keys`.
pub open spec fn unauth_sub_views(keys: Set<BlockKey>, prefix: Seq<char>, ied: Seq<char>, ap: Seq<char>, subs: Seq<VirtualTerminal>) -> Seq<ViolationView>
    decreases subs.len(),
{
    if subs.len() == 0 {
        Seq::empty()
    } else {
        let prev = unauth_sub_views(keys, prefix, ied, ap, subs.drop_last());
        let vt = subs.last();
        if !keys.contains(block_key(vt)) && vt.ied_name@.len() > 0 && vt.cb_name@.len() > 0 {
            prev.push((unauth_desc(prefix, ied, ap, vt), ViolationSeverity::High, seq![label(ied, ap)],
                ViolationType::UnauthorizedSubscription))
        } else {
            prev
        }
    }
}

/// The unauthorized-subscription violations of `entries`: GOOSE then SV
/// subscriptions of each access point.
pub open spec fn unauth_views(keys: Set<BlockKey>, entries: Seq<ApEntry>) -> Seq<ViolationView>
    decreases entries.len(),
{
    if entries.len() == 0 {
        Seq::empty()
    } else {
        let e = entries.last();
        unauth_views(keys, entries.drop_last())
            + unauth_sub_views(keys, "未授权 GOOSE 订阅: "@, e.0, e.1.name@, e.1.goose_subs@)
            + unauth_sub_views(keys, "未授权 SV 订阅: "@, e.0, e.1.name@, e.1.sv_subs@)
    }
}


/// The violation that a subscription `vt` of the access point `ap` of IED
/// `ied` to a block nobody publishes gives.
pub open spec fn unauth_violation(prefix: Seq<char>, ied: Seq<char>, ap: Seq<char>, vt: VirtualTerminal) -> ViolationView {
    (unauth_desc(prefix, ied, ap, vt), ViolationSeverity::High, seq![label(ied, ap)], ViolationType::UnauthorizedSubscription)
}

/// `v` is the violation of one of the subscriptions `subs` to a block not in
/// `keys`.
pub open spec fn sub_cause(keys: Set<BlockKey>, prefix: Seq<char>, ied: Seq<char>, ap: Seq<char>, subs: Seq<VirtualTerminal>, v: ViolationView) -> bool {
    exists|i: int| 0 <= i < subs.len() && !keys.contains(block_key(#[trigger] subs[i]))
        && v == unauth_violation(prefix, ied, ap, subs[i])
}

/// `v` is the violation of some GOOSE or SV subscription of some access
/// point of `entries` to a block not in `keys`.
pub open spec fn unauth_cause(keys: Set<BlockKey>, entries: Seq<ApEntry>, v: ViolationView) -> bool {
    exists|e: int| 0 <= e < entries.len() && {
        ||| sub_cause(keys, "未授权 GOOSE 订阅: "@, (#[trigger] entries[e]).0, entries[e].1.name@, entries[e].1.goose_subs@, v)
        ||| sub_cause(keys, "未授权 SV 订阅: "@, entries[e].0, entries[e].1.name@, entries[e].1.sv_subs@, v)
    }
}

/// Each violation about the subscriptions `subs` is the one of a
/// subscription among them to a block not in `keys`.
proof fn lemma_unauth_sub_views_cause(keys: Set<BlockKey>, prefix: Seq<char>, ied: Seq<char>, ap: Seq<char>, subs: Seq<VirtualTerminal>)
    ensures
        forall|m: int| 0 <= m < unauth_sub_views(keys, prefix, ied, ap, subs).len()
            ==> sub_cause(keys, prefix, ied, ap, subs, #[trigger] unauth_sub_views(keys, prefix, ied, ap, subs)[m]),
    decreases subs.len(),
{
    if subs.len() > 0 {
        let p = subs.drop_last();
        lemma_unauth_sub_views_cause(keys, prefix, ied, ap, p);
        let r = unauth_sub_views(keys, prefix, ied, ap, subs);
        let r0 = unauth_sub_views(keys, prefix, ied, ap, p);
        assert forall|m: int| 0 <= m < r.len() implies sub_cause(keys, prefix, ied, ap, subs, #[trigger] r[m]) by {
            if m < r0.len() {
                assert(r[m] == r0[m]);
                assert(sub_cause(keys, prefix, ied, ap, p, r0[m]));
                let i = choose|i: int| 0 <= i < p.len() && !keys.contains(block_key(#[trigger] p[i]))
                    && r0[m] == unauth_violation(prefix, ied, ap, p[i]);
                assert(subs[i] == p[i]);
            } else {
                assert(subs[subs.len() - 1] == subs.last());
            }
        }
    }
}

/// Every unauthorized-subscription violation is of high severity and is the
/// one of some GOOSE or SV subscription of some access point of `entries` to
/// a control block that is not in `keys`; so a subscription to a block in
/// `keys` gives none.
pub proof fn lemma_unauth_views_cause(keys: Set<BlockKey>, entries: Seq<ApEntry>)
    ensures
        forall|m: int| 0 <= m < unauth_views(keys, entries).len()
            ==> unauth_cause(keys, entries, #[trigger] unauth_views(keys, entries)[m]),
    decreases entries.len(),
{
    if entries.len() > 0 {
        let p = entries.drop_last();
        let e = entries.last();
        let n = entries.len() - 1;
        assert(entries[n] == e);
        lemma_unauth_views_cause(keys, p);
        let gp = "未授权 GOOSE 订阅: "@;
        let sp = "未授权 SV 订阅: "@;
        let r0 = unauth_views(keys, p);
        let rg = unauth_sub_views(keys, gp, e.0, e.1.name@, e.1.goose_subs@);
        let rs = unauth_sub_views(keys, sp, e.0, e.1.name@, e.1.sv_subs@);
        lemma_unauth_sub_views_cause(keys, gp, e.0, e.1.name@, e.1.goose_subs@);
        lemma_unauth_sub_views_cause(keys, sp, e.0, e.1.name@, e.1.sv_subs@);
        let r = unauth_views(keys, entries);
        assert(r == r0 + rg + rs);
        assert forall|m: int| 0 <= m < r.len() implies unauth_cause(keys, entries, #[trigger] r[m]) by {
            if m < r0.len() {
                assert(r[m] == r0[m]);
                assert(unauth_cause(keys, p, r0[m]));
                let e2 = choose|e2: int| 0 <= e2 < p.len() && {
                    ||| sub_cause(keys, gp, (#[trigger] p[e2]).0, p[e2].1.name@, p[e2].1.goose_subs@, r0[m])
                    ||| sub_cause(keys, sp, p[e2].0, p[e2].1.name@, p[e2].1.sv_subs@, r0[m])
                };
                assert(entries[e2] == p[e2]);
            } else if m < r0.len() + rg.len() {
                let q = m - r0.len();
                assert(r[m] == rg[q]);
                assert(sub_cause(keys, gp, e.0, e.1.name@, e.1.goose_subs@, rg[q]));
            } else {
                let q = m - r0.len() - rg.len();
                assert(r[m] == rs[q]);
                assert(sub_cause(keys, sp, e.0, e.1.name@, e.1.sv_subs@, rs[q]));
            }
        }
    }
}

/// Everything `validate_all` reports, in order, when the graph's components
/// are `parts`.
pub open spec fn all_checks(model: &SCDModel, g: &DirectedGraph, parts: Seq<Seq<usize>>) -> Seq<ViolationView> {
    let entries = all_access_points(model.ieds@);
    loop_views(g, parts)
        + cross_views(g, model.sub_networks@)
        + vlan_views(vlan_table(entries), entries)
        + unauth_views(published_blocks(entries), entries)
        + redundant_views(g, g.n())
        + reach_views(g, nodes_where(g.n(), |i: int| is_protection_node(g, i)),
            nodes_where(g.n(), |i: int| is_process_node(g, i)))
}


/// How many of the violations have severity `sev`.
pub open spec fn count_severity(vs: Seq<ViolationView>, sev: ViolationSeverity) -> nat
    decreases vs.len(),
{
    if vs.len() == 0 {
        0
    } else {
        count_severity(vs.drop_last(), sev) + if vs.last().1 == sev { 1nat } else { 0nat }
    }
}

/// The positions of the violations of severity `sev`.
pub open spec fn severity_positions(vs: Seq<ViolationView>, sev: ViolationSeverity) -> Set<int> {
    Set::new(|i: int| 0 <= i < vs.len() && vs[i].1 == sev)
}

/// The count of a severity is the number of violations of that severity,
/// and the four counts together count every violation once.
pub proof fn lemma_count_severity(vs: Seq<ViolationView>, sev: ViolationSeverity)
    ensures
        severity_positions(vs, sev).finite(),
        count_severity(vs, sev) == severity_positions(vs, sev).len(),
        count_severity(vs, ViolationSeverity::Critical) + count_severity(vs, ViolationSeverity::High)
            + count_severity(vs, ViolationSeverity::Medium) + count_severity(vs, ViolationSeverity::Low) == vs.len(),
    decreases vs.len(),
{
    if vs.len() == 0 {
        assert(severity_positions(vs, sev) =~= Set::<int>::empty());
    } else {
        let p = vs.drop_last();
        let n = vs.len() - 1;
        lemma_count_severity(p, sev);
        let s0 = severity_positions(p, sev);
        assert forall|i: int| 0 <= i < n implies vs[i] == p[i] by {}
        if vs.last().1 == sev {
            assert(severity_positions(vs, sev) =~= s0.insert(n));
            assert(!s0.contains(n));
        } else {
            assert(severity_positions(vs, sev) =~= s0);
        }
    }
}

/// A walk can be extended by an edge at its end.
proof fn lemma_reaches_append(g: &DirectedGraph, a: usize, u: usize, w: usize)
    requires
        reaches(g, a, u),
        g.edge(u as int, w as int),
    ensures
        reaches(g, a, w),
{
    let p = choose|p: Seq<usize>| #[trigger] is_walk(g, p) && p[0] == a && p.last() == u;
    let q = p.push(w);
    assert forall|i: int| 0 <= i < q.len() implies #[trigger] q[i] < g.n() by {
        if i < p.len() { assert(q[i] == p[i]); }
    }
    assert forall|i: int| 0 <= i < q.len() - 1 implies #[trigger] g.edge(q[i] as int, q[i + 1] as int) by {
        if i < p.len() - 1 {
            assert(q[i] == p[i] && q[i + 1] == p[i + 1]);
        } else {
            assert(q[i] == u && q[i + 1] == w);
        }
    }
    assert(is_walk(g, q));
    assert(q[0] == a);
}

/// A set that holds `a` and, with each node, every target of its edges,
/// holds every node that `a` reaches.
proof fn lemma_closed_holds_reached(g: &DirectedGraph, s: Set<usize>, a: usize, p: Seq<usize>)
    requires
        s.contains(a),
        forall|x: usize, y: usize| s.contains(x) && #[trigger] g.edge(x as int, y as int) ==> #[trigger] s.contains(y),
        is_walk(g, p),
        p[0] == a,
    ensures
        s.contains(p.last()),
    decreases p.len(),
{
    if p.len() > 1 {
        let q = p.drop_last();
        assert forall|i: int| 0 <= i < q.len() implies #[trigger] q[i] < g.n() by {
            assert(q[i] == p[i]);
        }
        assert forall|i: int| 0 <= i < q.len() - 1 implies #[trigger] g.edge(q[i] as int, q[i + 1] as int) by {
            assert(q[i] == p[i] && q[i + 1] == p[i + 1]);
        }
        lemma_closed_holds_reached(g, s, a, q);
        let i = p.len() - 2;
        assert(g.edge(p[i] as int, p[i + 1] as int));
        assert(q.last() == p[i]);
    }
}

/// Checks configurations and graphs against the isolation rules, and keeps
/// the violations it finds.
pub struct IsolationValidator {
    violations: Vec<IsolationViolation>,
}

impl IsolationViolation {
    /// A violation with the given contents.
    fn make(description: String, severity: ViolationSeverity, involved_nodes: Vec<String>, violation_type: ViolationType) -> (v: IsolationViolation)
        ensures
            v.description == description,
            v.severity == severity,
            v.involved_nodes == involved_nodes,
            v.violation_type == violation_type,
    {
        IsolationViolation { description, severity, involved_nodes, violation_type }
    }
}

impl IsolationValidator {
    /// The contents of the violations found so far, in the order found.
    pub closed spec fn found(&self) -> Seq<ViolationView> {
        violation_views(self.violations@)
    }

    /// A validator that has found nothing.
    pub fn new() -> (v: Self)
        ensures
            v.found() == Seq::<ViolationView>::empty(),
    {
        let v = IsolationValidator { violations: Vec::new() };
        assert(v.found() =~= Seq::<ViolationView>::empty());
        v
    }

    /// The violations found so far.
    pub fn violations(&self) -> (r: &[IsolationViolation])
        ensures
            violation_views(r@) == self.found(),
    {
        self.violations.as_slice()
    }

    /// How many of the violations found so far are critical, high, medium
    /// and low.
    pub fn severity_counts(&self) -> (r: (usize, usize, usize, usize))
        ensures
            r.0 == count_severity(self.found(), ViolationSeverity::Critical),
            r.1 == count_severity(self.found(), ViolationSeverity::High),
            r.2 == count_severity(self.found(), ViolationSeverity::Medium),
            r.3 == count_severity(self.found(), ViolationSeverity::Low),
    {
        let ghost f = self.found();
        let mut c: usize = 0;
        let mut h: usize = 0;
        let mut m: usize = 0;
        let mut l: usize = 0;
        let mut i: usize = 0;
        while i < self.violations.len()
            invariant
                f == violation_views(self.violations@),
                i <= self.violations@.len(),
                c == count_severity(f.take(i as int), ViolationSeverity::Critical),
                h == count_severity(f.take(i as int), ViolationSeverity::High),
                m == count_severity(f.take(i as int), ViolationSeverity::Medium),
                l == count_severity(f.take(i as int), ViolationSeverity::Low),
                c + h + m + l == i,
            decreases self.violations@.len() - i,
        {
            proof {
                assert(f.take(i + 1).drop_last() =~= f.take(i as int));
                assert(f.take(i + 1).last() == violation_view(self.violations@[i as int]));
            }
            match self.violations[i].severity {
                ViolationSeverity::Critical => { c = c + 1; }
                ViolationSeverity::High => { h = h + 1; }
                ViolationSeverity::Medium => { m = m + 1; }
                ViolationSeverity::Low => { l = l + 1; }
            }
            i = i + 1;
        }
        proof { assert(f.take(i as int) =~= f); }
        (c, h, m, l)
    }

    /// Records one more violation.
    fn record(&mut self, description: String, severity: ViolationSeverity, involved_nodes: Vec<String>, violation_type: ViolationType)
        ensures
            final(self).found() == old(self).found().push(
                (description@, severity, involved_nodes@.map_values(|s: String| s@), violation_type)),
    {
        let ghost d = description@;
        let ghost inv = involved_nodes@.map_values(|s: String| s@);
        let v = IsolationViolation::make(description, severity, involved_nodes, violation_type);
        let ghost before = self.violations@;
        self.violations.push(v);
        proof {
            assert(violation_view(v) == (d, severity, inv, violation_type));
            assert(violation_views(self.violations@) =~= violation_views(before).push(violation_view(v)));
        }
    }

    /// The labels of the nodes `vs`.
    fn node_labels(graph: &DirectedGraph, vs: &Vec<usize>) -> (r: Vec<String>)
        requires
            forall|i: int| 0 <= i < vs@.len() ==> #[trigger] vs@[i] < graph.n(),
        ensures
            r@.map_values(|s: String| s@) == labels_of(graph, vs@),
    {
        let mut out: Vec<String> = Vec::new();
        let mut i: usize = 0;
        while i < vs.len()
            invariant
                forall|k: int| 0 <= k < vs@.len() ==> #[trigger] vs@[k] < graph.n(),
                i <= vs@.len(),
                out@.len() == i,
                forall|k: int| 0 <= k < i ==> #[trigger] out@[k]@ == node_label(graph, vs@[k] as int),
            decreases vs@.len() - i,
        {
            let node = &graph.nodes[vs[i]];
            out.push(make_label(&node.ied_name, &node.ap_name));
            i = i + 1;
        }
        assert(out@.map_values(|s: String| s@) =~= labels_of(graph, vs@));
        out
    }

    /// Reports each component of more than one node as a loop.
    fn check_for_loops(&mut self, graph: &DirectedGraph)
        requires
            graph.wf(),
        ensures
            exists|parts: Seq<Seq<usize>>| #[trigger] is_tarjan_listing(graph, parts)
                && final(self).found() == old(self).found() + loop_views(graph, parts),
    {
        let sccs = TarjanSCC::compute(graph);
        let ghost parts = views(sccs@);
        let ghost f0 = self.found();
        let mut c: usize = 0;
        proof {
            assert(parts.take(0) =~= Seq::<Seq<usize>>::empty());
            assert(f0 + loop_views(graph, parts.take(0)) =~= f0);
        }
        while c < sccs.len()
            invariant
                graph.wf(),
                parts == views(sccs@),
                is_scc_partition(graph, parts),
                c <= sccs@.len(),
                self.found() == f0 + loop_views(graph, parts.take(c as int)),
            decreases sccs@.len() - c,
        {
            let scc = &sccs[c];
            proof {
                assert(parts.take(c + 1).drop_last() =~= parts.take(c as int));
                assert(parts.take(c + 1).last() == scc@);
                assert forall|i: int| 0 <= i < scc@.len() implies #[trigger] scc@[i] < graph.n() by {
                    crate::graph::facts::lemma_part_member_below(graph.n(), parts, c as int, i);
                }
            }
            if scc.len() > 1 {
                let involved = Self::node_labels(graph, scc);
                let mut d = String::from_str("检测到信号环路，包含 ");
                let count = usize_text(scc.len());
                d.append(count.as_str());
                d.append(" 个节点，违反继电保护单向传输原则");
                self.record(d, ViolationSeverity::Critical, involved, ViolationType::LoopDetected);
                proof {
                    assert(f0 + loop_views(graph, parts.take(c + 1)) =~= (f0 + loop_views(graph, parts.take(c as int))).push(
                        (loop_desc(scc@.len()), ViolationSeverity::Critical, labels_of(graph, scc@), ViolationType::LoopDetected)));
                }
            }
            c = c + 1;
        }
        proof {
            assert(parts.take(c as int) =~= parts);
            assert(is_tarjan_listing(graph, parts));
        }
    }

    /// Reports each node whose edge list names a target more than once.
    fn check_redundant_paths(&mut self, graph: &DirectedGraph)
        requires
            graph.wf(),
        ensures
            final(self).found() == old(self).found() + redundant_views(graph, graph.n()),
    {
        let ghost f0 = self.found();
        let n = graph.adjacency.len();
        let mut u: usize = 0;
        while u < n
            invariant
                graph.wf(),
                n == graph.n(),
                u <= n,
                self.found() == f0 + redundant_views(graph, u as int),
            decreases n - u,
        {
            let row = &graph.adjacency[u];
            let mut seen = index_set_new();
            let mut dups: Vec<usize> = Vec::new();
            let mut j: usize = 0;
            proof { assert(row@.take(0) =~= Seq::<usize>::empty()); }
            while j < row.len()
                invariant
                    graph.wf(),
                    u < graph.n(),
                    *row == graph.adjacency@[u as int],
                    j <= row@.len(),
                    forall|x: usize| #[trigger] index_set_contents(seen).contains(x) <==> row@.take(j as int).contains(x),
                    dups@ == dup_entries(row@.take(j as int)),
                decreases row@.len() - j,
            {
                let to = row[j];
                let ghost s0 = index_set_contents(seen);
                let added = index_set_insert(&mut seen, to);
                proof {
                    assert(row@.take(j + 1).drop_last() =~= row@.take(j as int));
                    assert(row@.take(j + 1).last() == to);
                    assert(added == !row@.take(j as int).contains(to));
                    let t1 = row@.take(j + 1);
                    let t0 = row@.take(j as int);
                    assert forall|x: usize| #[trigger] index_set_contents(seen).contains(x) <==> t1.contains(x) by {
                        if t1.contains(x) && x != to {
                            let k = choose|k: int| 0 <= k < t1.len() && t1[k] == x;
                            assert(t0[k] == x);
                        }
                        if t0.contains(x) {
                            let k = choose|k: int| 0 <= k < t0.len() && t0[k] == x;
                            assert(t1[k] == x);
                        }
                        if x == to {
                            assert(t1[j as int] == to);
                        }
                    }
                }
                if !added {
                    dups.push(to);
                }
                j = j + 1;
            }
            proof {
                assert(row@.take(j as int) =~= graph.adj(u as int));
                assert forall|i: int| 0 <= i < dups@.len() implies #[trigger] dups@[i] < graph.n() by {
                    lemma_dup_entries_from(graph.adj(u as int), i);
                    let k = choose|k: int| 0 <= k < graph.adj(u as int).len() && graph.adj(u as int)[k] == dups@[i];
                }
            }
            if dups.len() > 0 {
                let from_node = &graph.nodes[u];
                let mut involved: Vec<String> = Vec::new();
                involved.push(make_label(&from_node.ied_name, &from_node.ap_name));
                let rest = Self::node_labels(graph, &dups);
                let ghost first = involved@.map_values(|s: String| s@);
                let mut k: usize = 0;
                while k < rest.len()
                    invariant
                        k <= rest@.len(),
                        involved@.map_values(|s: String| s@) == first + rest@.map_values(|s: String| s@).take(k as int),
                    decreases rest@.len() - k,
                {
                    let c = rest[k].clone();
                    let ghost inv0 = involved@;
                    involved.push(c);
                    proof {
                        let f = |s: String| s@;
                        assert(involved@ == inv0.push(c));
                        assert(involved@.map_values(f) =~= inv0.map_values(f).push(c@));
                        assert(rest@.map_values(f).take(k + 1) =~= rest@.map_values(f).take(k as int).push(rest@[k as int]@));
                        assert(involved@.map_values(f) =~= first + rest@.map_values(f).take(k + 1));
                    }
                    k = k + 1;
                }
                proof {
                    assert(rest@.map_values(|s: String| s@).take(k as int) =~= rest@.map_values(|s: String| s@));
                    assert(first =~= seq![node_label(graph, u as int)]);
                }
                let mut d = String::from_str("检测到冗余路径: ");
                let lbl = make_label(&from_node.ied_name, &from_node.ap_name);
                d.append(lbl.as_str());
                d.append(" 存在 ");
                let count = usize_text(dups.len());
                d.append(count.as_str());
                d.append(" 条重复连接");
                self.record(d, ViolationSeverity::Low, involved, ViolationType::RedundantPath);
                proof {
                    assert(redundant_desc(graph, u as int, dups@.len()) =~= d@);
                }
            }
            proof {
                assert(f0 + redundant_views(graph, u + 1) =~= self.found()) by {
                    if dups@.len() > 0 {
                        assert(f0 + redundant_views(graph, u + 1) =~= (f0 + redundant_views(graph, u as int)).push(
                            (redundant_desc(graph, u as int, dups@.len()), ViolationSeverity::Low,
                                seq![node_label(graph, u as int)] + labels_of(graph, dups@), ViolationType::RedundantPath)));
                    }
                }
            }
            u = u + 1;
        }
    }

    /// Reports each edge whose two ends are listed in different subnetworks.
    fn check_cross_zone_connections(&mut self, scd_model: &SCDModel, graph: &DirectedGraph)
        requires
            graph.wf(),
        ensures
            final(self).found() == old(self).found() + cross_views(graph, scd_model.sub_networks@),
    {
        let ghost f0 = self.found();
        let ghost subnets = scd_model.sub_networks@;
        let mut zones = zone_map_new();
        let mut b: usize = 0;
        proof { assert(subnets.take(0) =~= Seq::<SubNetwork>::empty()); }
        while b < scd_model.sub_networks.len()
            invariant
                subnets == scd_model.sub_networks@,
                b <= subnets.len(),
                zone_map_contents(zones) == zones_of(subnets.take(b as int)),
            decreases subnets.len() - b,
        {
            let sub = &scd_model.sub_networks[b];
            let ghost z0 = zone_map_contents(zones);
            let mut q: usize = 0;
            proof { assert(sub.access_points@.take(0) =~= Seq::<(String, String)>::empty()); }
            while q < sub.access_points.len()
                invariant
                    q <= sub.access_points@.len(),
                    zone_map_contents(zones) == zone_pairs(z0, sub.access_points@.take(q as int), sub.name@),
                decreases sub.access_points@.len() - q,
            {
                let pair = &sub.access_points[q];
                proof {
                    assert(sub.access_points@.take(q + 1).drop_last() =~= sub.access_points@.take(q as int));
                    assert(sub.access_points@.take(q + 1).last() == *pair);
                }
                zone_map_insert(&mut zones, pair.0.clone(), pair.1.clone(), sub.name.clone());
                q = q + 1;
            }
            proof {
                assert(sub.access_points@.take(q as int) =~= sub.access_points@);
                assert(subnets.take(b + 1).drop_last() =~= subnets.take(b as int));
                assert(subnets.take(b + 1).last() == *sub);
            }
            b = b + 1;
        }
        proof { assert(subnets.take(b as int) =~= subnets); }
        let ghost zc = zone_map_contents(zones);
        if zone_map_is_empty(&zones) {
            proof { assert(f0 + Seq::<ViolationView>::empty() =~= f0); }
            return;
        }
        let n = graph.adjacency.len();
        let mut u: usize = 0;
        while u < n
            invariant
                graph.wf(),
                n == graph.n(),
                u <= n,
                zc == zone_map_contents(zones),
                zc == zones_of(subnets),
                zc.dom() != Set::<(Seq<char>, Seq<char>)>::empty(),
                self.found() == f0 + cross_rows(graph, zc, u as int),
            decreases n - u,
        {
            let from_node = &graph.nodes[u];
            let from_zone = zone_map_get(&zones, &from_node.ied_name, &from_node.ap_name);
            let row = &graph.adjacency[u];
            let ghost fr = self.found();
            let mut j: usize = 0;
            proof {
                assert(row@.take(0) =~= Seq::<usize>::empty());
                assert(fr + cross_row(graph, zc, u as int, row@.take(0)) =~= fr);
            }
            while j < row.len()
                invariant
                    graph.wf(),
                    u < graph.n(),
                    *from_node == graph.nodes@[u as int],
                    *row == graph.adjacency@[u as int],
                    zc == zone_map_contents(zones),
                    zc.dom().contains(from_node.key()) ==> from_zone is Some && from_zone->0@ == zc[from_node.key()],
                    !zc.dom().contains(from_node.key()) ==> from_zone is None,
                    j <= row@.len(),
                    self.found() == fr + cross_row(graph, zc, u as int, row@.take(j as int)),
                decreases row@.len() - j,
            {
                let to = row[j];
                proof {
                    assert(graph.adj(u as int)[j as int] == to);
                    assert(row@.take(j + 1).drop_last() =~= row@.take(j as int));
                    assert(row@.take(j + 1).last() == to);
                }
                let to_node = &graph.nodes[to];
                let to_zone = zone_map_get(&zones, &to_node.ied_name, &to_node.ap_name);
                let ghost f1 = self.found();
                match (&from_zone, &to_zone) {
                    (Some(fz), Some(tz)) => {
                        if *fz != *tz {
                            let mut d = String::from_str("跨安全分区连接: ");
                            let l1 = make_label(&from_node.ied_name, &from_node.ap_name);
                            let l2 = make_label(&to_node.ied_name, &to_node.ap_name);
                            d.append(l1.as_str());
                            d.append(" -> ");
                            d.append(l2.as_str());
                            d.append(" (");
                            d.append(fz.as_str());
                            d.append(" -> ");
                            d.append(tz.as_str());
                            d.append(")");
                            let mut involved: Vec<String> = Vec::new();
                            involved.push(make_label(&from_node.ied_name, &from_node.ap_name));
                            involved.push(make_label(&to_node.ied_name, &to_node.ap_name));
                            proof {
                                assert(d@ =~= cross_desc(graph, u as int, to as int, fz@, tz@));
                                assert(involved@.map_values(|s: String| s@) =~= seq![node_label(graph, u as int), node_label(graph, to as int)]);
                            }
                            self.record(d, ViolationSeverity::High, involved, ViolationType::CrossZoneConnection);
                        }
                    }
                    _ => {}
                }
                proof {
                    assert(self.found() =~= fr + cross_row(graph, zc, u as int, row@.take(j + 1)));
                }
                j = j + 1;
            }
            proof {
                assert(row@.take(j as int) =~= graph.adj(u as int));
                assert(f0 + cross_rows(graph, zc, u + 1) =~= fr + cross_row(graph, zc, u as int, graph.adj(u as int)));
            }
            u = u + 1;
        }
    }

    /// Whether an upper-case name marks a protection device.
    fn protection_hit(upper: &str) -> (b: bool)
        ensures
            b == protection_name(upper@),
    {
        contains_text(upper, "PROT") || contains_text(upper, "PROTECTION") || contains_text(upper, "保护")
            || contains_text(upper, "继电保护") || contains_text(upper, "线路保护") || contains_text(upper, "主变保护")
    }

    /// Whether an upper-case name marks a process-level device.
    fn process_hit(upper: &str) -> (b: bool)
        ensures
            b == process_name(upper@),
    {
        contains_text(upper, "PROCESS") || contains_text(upper, "过程层") || contains_text(upper, "SV")
            || contains_text(upper, "SMV")
    }

    /// Reports each process-level node that a protection node reaches.
    fn check_protection_isolation(&mut self, graph: &DirectedGraph)
        requires
            graph.wf(),
        ensures
            final(self).found() == old(self).found() + reach_views(graph,
                nodes_where(graph.n(), |i: int| is_protection_node(graph, i)),
                nodes_where(graph.n(), |i: int| is_process_node(graph, i))),
    {
        let ghost f0 = self.found();
        let ghost pp = |i: int| is_protection_node(graph, i);
        let ghost pq = |i: int| is_process_node(graph, i);
        let n = graph.node_count();
        let mut prots: Vec<usize> = Vec::new();
        let mut procs: Vec<usize> = Vec::new();
        let mut idx: usize = 0;
        while idx < n
            invariant
                n == graph.n(),
                idx <= n,
                pp == |i: int| is_protection_node(graph, i),
                pq == |i: int| is_process_node(graph, i),
                prots@ == nodes_where(idx as int, pp),
                procs@ == nodes_where(idx as int, pq),
            decreases n - idx,
        {
            let upper = to_upper(graph.nodes[idx].ied_name.as_str());
            if Self::protection_hit(upper.as_str()) {
                prots.push(idx);
            }
            if Self::process_hit(upper.as_str()) {
                procs.push(idx);
            }
            proof {
                assert(pp(idx as int) == is_protection_node(graph, idx as int));
                assert(pq(idx as int) == is_process_node(graph, idx as int));
            }
            idx = idx + 1;
        }
        proof {
            crate::graph::timing::lemma_nodes_where_below(n as int, pp);
            crate::graph::timing::lemma_nodes_where_below(n as int, pq);
            assert(prots@.take(0) =~= Seq::<usize>::empty());
            assert(f0 + reach_views(graph, prots@.take(0), procs@) =~= f0);
        }
        let mut a: usize = 0;
        while a < prots.len()
            invariant
                graph.wf(),
                n == graph.n(),
                forall|k: int| 0 <= k < prots@.len() ==> 0 <= #[trigger] prots@[k] < n,
                forall|k: int| 0 <= k < procs@.len() ==> 0 <= #[trigger] procs@[k] < n,
                a <= prots@.len(),
                self.found() == f0 + reach_views(graph, prots@.take(a as int), procs@),
            decreases prots@.len() - a,
        {
            let p = prots[a];
            let reachable = Self::bfs_reachable(graph, p);
            let ghost fr = self.found();
            let mut b: usize = 0;
            proof {
                assert(procs@.take(0) =~= Seq::<usize>::empty());
                assert(fr + reach_row(graph, p, procs@.take(0)) =~= fr);
            }
            while b < procs.len()
                invariant
                    graph.wf(),
                    n == graph.n(),
                    p < n,
                    forall|k: int| 0 <= k < procs@.len() ==> 0 <= #[trigger] procs@[k] < n,
                    forall|v: usize| #[trigger] index_set_contents(reachable).contains(v) <==> (v < graph.n() && reaches(graph, p, v)),
                    b <= procs@.len(),
                    self.found() == fr + reach_row(graph, p, procs@.take(b as int)),
                decreases procs@.len() - b,
            {
                let q = procs[b];
                proof {
                    assert(procs@.take(b + 1).drop_last() =~= procs@.take(b as int));
                    assert(procs@.take(b + 1).last() == q);
                }
                if index_set_contains(&reachable, q) {
                    let prot_node = &graph.nodes[p];
                    let proc_node = &graph.nodes[q];
                    let mut d = String::from_str("保护装置直连过程层设备: ");
                    let l1 = make_label(&prot_node.ied_name, &prot_node.ap_name);
                    let l2 = make_label(&proc_node.ied_name, &proc_node.ap_name);
                    d.append(l1.as_str());
                    d.append(" -> ");
                    d.append(l2.as_str());
                    d.append(" 可能存在安全风险");
                    let mut involved: Vec<String> = Vec::new();
                    involved.push(make_label(&prot_node.ied_name, &prot_node.ap_name));
                    involved.push(make_label(&proc_node.ied_name, &proc_node.ap_name));
                    proof {
                        assert(d@ =~= reach_desc(graph, p as int, q as int));
                        assert(involved@.map_values(|s: String| s@) =~= seq![node_label(graph, p as int), node_label(graph, q as int)]);
                    }
                    self.record(d, ViolationSeverity::Medium, involved, ViolationType::CrossZoneConnection);
                }
                proof {
                    assert(self.found() =~= fr + reach_row(graph, p, procs@.take(b + 1)));
                }
                b = b + 1;
            }
            proof {
                assert(procs@.take(b as int) =~= procs@);
                assert(prots@.take(a + 1).drop_last() =~= prots@.take(a as int));
                assert(prots@.take(a + 1).last() == p);
                assert(f0 + reach_views(graph, prots@.take(a + 1), procs@) =~= fr + reach_row(graph, p, procs@));
            }
            a = a + 1;
        }
        proof { assert(prots@.take(a as int) =~= prots@); }
    }

    /// Adds the VLANs of the terminals `vts` that carry one.
    fn add_block_vlans(m: &mut VlanMap, vts: &Vec<VirtualTerminal>)
        ensures
            vlan_map_contents(*final(m)) == add_vlans(vlan_map_contents(*old(m)), vts@),
    {
        let ghost m0 = vlan_map_contents(*m);
        let mut k: usize = 0;
        proof { assert(vts@.take(0) =~= Seq::<VirtualTerminal>::empty()); }
        while k < vts.len()
            invariant
                k <= vts@.len(),
                vlan_map_contents(*m) == add_vlans(m0, vts@.take(k as int)),
            decreases vts@.len() - k,
        {
            let vt = &vts[k];
            proof {
                assert(vts@.take(k + 1).drop_last() =~= vts@.take(k as int));
                assert(vts@.take(k + 1).last() == *vt);
            }
            match &vt.vlan_id {
                Some(vlan) => {
                    vlan_map_push(m, vt.ied_name.clone(), vt.ap_name.clone(), vt.cb_name.clone(), vlan.clone());
                }
                None => {}
            }
            k = k + 1;
        }
        proof { assert(vts@.take(k as int) =~= vts@); }
    }

    /// Adds the control blocks of the terminals `vts`.
    fn add_block_keys(set: &mut BlockSet, vts: &Vec<VirtualTerminal>)
        ensures
            block_set_contents(*final(set)) == add_keys(block_set_contents(*old(set)), vts@),
    {
        let ghost s0 = block_set_contents(*set);
        let mut k: usize = 0;
        proof { assert(vts@.take(0) =~= Seq::<VirtualTerminal>::empty()); }
        while k < vts.len()
            invariant
                k <= vts@.len(),
                block_set_contents(*set) == add_keys(s0, vts@.take(k as int)),
            decreases vts@.len() - k,
        {
            let vt = &vts[k];
            proof {
                assert(vts@.take(k + 1).drop_last() =~= vts@.take(k as int));
                assert(vts@.take(k + 1).last() == *vt);
            }
            block_set_insert(set, vt.ied_name.clone(), vt.ap_name.clone(), vt.cb_name.clone());
            k = k + 1;
        }
        proof { assert(vts@.take(k as int) =~= vts@); }
    }

    /// Whether `s` is one of `list`.
    fn has_text(list: &Vec<String>, s: &String) -> (b: bool)
        ensures
            b == list@.map_values(|x: String| x@).contains(s@),
    {
        let ghost lv = list@.map_values(|x: String| x@);
        let mut i: usize = 0;
        while i < list.len()
            invariant
                lv == list@.map_values(|x: String| x@),
                i <= list@.len(),
                forall|k: int| 0 <= k < i ==> lv[k] != s@,
            decreases list@.len() - i,
        {
            if list[i] == *s {
                proof { assert(lv[i as int] == s@); }
                return true;
            }
            i = i + 1;
        }
        false
    }

    /// Reports the GOOSE subscriptions `subs` of access point `ap` of IED
    /// `ied` that name another VLAN than their publisher.
    fn check_vlan_subs(&mut self, table: &VlanMap, ied: &String, ap: &String, subs: &Vec<VirtualTerminal>)
        ensures
            final(self).found() == old(self).found() + vlan_sub_views(vlan_map_contents(*table), ied@, ap@, subs@),
    {
        let ghost f0 = self.found();
        let ghost tc = vlan_map_contents(*table);
        let mut k: usize = 0;
        proof {
            assert(subs@.take(0) =~= Seq::<VirtualTerminal>::empty());
            assert(f0 + vlan_sub_views(tc, ied@, ap@, subs@.take(0)) =~= f0);
        }
        while k < subs.len()
            invariant
                tc == vlan_map_contents(*table),
                k <= subs@.len(),
                self.found() == f0 + vlan_sub_views(tc, ied@, ap@, subs@.take(k as int)),
            decreases subs@.len() - k,
        {
            let vt = &subs[k];
            proof {
                assert(subs@.take(k + 1).drop_last() =~= subs@.take(k as int));
                assert(subs@.take(k + 1).last() == *vt);
            }
            let ghost f1 = self.found();
            if let Some(pub_vlans) = vlan_map_get(table, &vt.ied_name, &vt.ap_name, &vt.cb_name) {
                if pub_vlans.len() > 0 {
                    if let Some(sub_vlan) = &vt.vlan_id {
                        if !Self::has_text(&pub_vlans, sub_vlan) {
                            let mut d = String::from_str("GOOSE 订阅 VLAN 不匹配: ");
                            let l = make_label(ied, ap);
                            d.append(l.as_str());
                            d.append(".");
                            d.append(vt.cb_name.as_str());
                            d.append(" 订阅 VLAN=");
                            d.append(sub_vlan.as_str());
                            d.append(", 发布 VLAN=");
                            d.append(pub_vlans[0].as_str());
                            let mut involved: Vec<String> = Vec::new();
                            involved.push(make_label(&vt.ied_name, &vt.ap_name));
                            involved.push(make_label(ied, ap));
                            proof {
                                let key = block_key(*vt);
                                assert(pub_vlans@.map_values(|x: String| x@)[0] == pub_vlans@[0]@);
                                assert(d@ =~= vlan_desc(ied@, ap@, vt.cb_name@, sub_vlan@, tc[key][0]));
                                assert(involved@.map_values(|s: String| s@) =~= seq![label(vt.ied_name@, vt.ap_name@), label(ied@, ap@)]);
                            }
                            self.record(d, ViolationSeverity::Medium, involved, ViolationType::VlanMismatch);
                        }
                    }
                }
            }
            proof {
                assert(self.found() =~= f0 + vlan_sub_views(tc, ied@, ap@, subs@.take(k + 1)));
            }
            k = k + 1;
        }
        proof { assert(subs@.take(k as int) =~= subs@); }
    }

    /// Reports the subscriptions `subs` of access point `ap` of IED `ied`
    /// to control blocks that nobody publishes.
    fn check_unauth_subs(&mut self, keys: &BlockSet, prefix: &str, ied: &String, ap: &String, subs: &Vec<VirtualTerminal>)
        ensures
            final(self).found() == old(self).found() + unauth_sub_views(block_set_contents(*keys), prefix@, ied@, ap@, subs@),
    {
        let ghost f0 = self.found();
        let ghost kc = block_set_contents(*keys);
        let mut k: usize = 0;
        proof {
            assert(subs@.take(0) =~= Seq::<VirtualTerminal>::empty());
            assert(f0 + unauth_sub_views(kc, prefix@, ied@, ap@, subs@.take(0)) =~= f0);
        }
        while k < subs.len()
            invariant
                kc == block_set_contents(*keys),
                k <= subs@.len(),
                self.found() == f0 + unauth_sub_views(kc, prefix@, ied@, ap@, subs@.take(k as int)),
            decreases subs@.len() - k,
        {
            let vt = &subs[k];
            proof {
                assert(subs@.take(k + 1).drop_last() =~= subs@.take(k as int));
                assert(subs@.take(k + 1).last() == *vt);
            }
            let known = block_set_contains(keys, &vt.ied_name, &vt.ap_name, &vt.cb_name);
            if !known && vt.ied_name.as_str().unicode_len() > 0 && vt.cb_name.as_str().unicode_len() > 0 {
                let mut d = String::from_str(prefix);
                let l = make_label(ied, ap);
                d.append(l.as_str());
                d.append(" 订阅不存在的发布 ");
                let l2 = make_label(&vt.ied_name, &vt.ap_name);
                d.append(l2.as_str());
                d.append(".");
                d.append(vt.cb_name.as_str());
                let mut involved: Vec<String> = Vec::new();
                involved.push(make_label(ied, ap));
                proof {
                    assert(d@ =~= unauth_desc(prefix@, ied@, ap@, *vt));
                    assert(involved@.map_values(|s: String| s@) =~= seq![label(ied@, ap@)]);
                }
                self.record(d, ViolationSeverity::High, involved, ViolationType::UnauthorizedSubscription);
            }
            proof {
                assert(self.found() =~= f0 + unauth_sub_views(kc, prefix@, ied@, ap@, subs@.take(k + 1)));
            }
            k = k + 1;
        }
        proof { assert(subs@.take(k as int) =~= subs@); }
    }

    /// Reports GOOSE subscriptions whose VLAN is not one their control block
    /// is published with.
    fn check_vlan_consistency(&mut self, scd_model: &SCDModel)
        ensures
            final(self).found() == old(self).found()
                + vlan_views(vlan_table(all_access_points(scd_model.ieds@)), all_access_points(scd_model.ieds@)),
    {
        let ghost ieds = scd_model.ieds@;
        let mut table = vlan_map_new();
        let mut i: usize = 0;
        proof { assert(ieds.take(0) =~= Seq::<IED>::empty()); }
        while i < scd_model.ieds.len()
            invariant
                ieds == scd_model.ieds@,
                i <= ieds.len(),
                vlan_map_contents(table) == vlan_table(all_access_points(ieds.take(i as int))),
            decreases ieds.len() - i,
        {
            let ied = &scd_model.ieds[i];
            let ghost before = all_access_points(ieds.take(i as int));
            let ghost mine = ied_access_points(*ied);
            let mut j: usize = 0;
            proof {
                assert(mine.take(0) =~= Seq::<ApEntry>::empty());
                assert(before + mine.take(0) =~= before);
            }
            while j < ied.access_points.len()
                invariant
                    ieds == scd_model.ieds@,
                    i < ieds.len(),
                    *ied == ieds[i as int],
                    mine == ied_access_points(*ied),
                    j <= ied.access_points@.len(),
                    vlan_map_contents(table) == vlan_table(before + mine.take(j as int)),
                decreases ied.access_points@.len() - j,
            {
                let ap = &ied.access_points[j];
                proof {
                    assert(mine[j as int] == (ied.name@, *ap));
                    assert((before + mine.take(j + 1)).drop_last() =~= before + mine.take(j as int));
                    assert((before + mine.take(j + 1)).last() == (ied.name@, *ap));
                }
                Self::add_block_vlans(&mut table, &ap.goose_pubs);
                Self::add_block_vlans(&mut table, &ap.sv_pubs);
                j = j + 1;
            }
            proof {
                assert(mine.take(j as int) =~= mine);
                assert(ieds.take(i + 1).drop_last() =~= ieds.take(i as int));
                assert(ieds.take(i + 1).last() == *ied);
            }
            i = i + 1;
        }
        proof { assert(ieds.take(i as int) =~= ieds); }
        let ghost tc = vlan_map_contents(table);
        let ghost f0 = self.found();
        let mut i: usize = 0;
        proof {
            assert(ieds.take(0) =~= Seq::<IED>::empty());
            assert(f0 + vlan_views(tc, all_access_points(ieds.take(0))) =~= f0);
        }
        while i < scd_model.ieds.len()
            invariant
                ieds == scd_model.ieds@,
                i <= ieds.len(),
                tc == vlan_map_contents(table),
                self.found() == f0 + vlan_views(tc, all_access_points(ieds.take(i as int))),
            decreases ieds.len() - i,
        {
            let ied = &scd_model.ieds[i];
            let ghost before = all_access_points(ieds.take(i as int));
            let ghost mine = ied_access_points(*ied);
            let mut j: usize = 0;
            proof {
                assert(mine.take(0) =~= Seq::<ApEntry>::empty());
                assert(before + mine.take(0) =~= before);
            }
            while j < ied.access_points.len()
                invariant
                    ieds == scd_model.ieds@,
                    i < ieds.len(),
                    *ied == ieds[i as int],
                    mine == ied_access_points(*ied),
                    j <= ied.access_points@.len(),
                    tc == vlan_map_contents(table),
                    self.found() == f0 + vlan_views(tc, before + mine.take(j as int)),
                decreases ied.access_points@.len() - j,
            {
                let ap = &ied.access_points[j];
                proof {
                    assert(mine[j as int] == (ied.name@, *ap));
                    assert((before + mine.take(j + 1)).drop_last() =~= before + mine.take(j as int));
                    assert((before + mine.take(j + 1)).last() == (ied.name@, *ap));
                }
                self.check_vlan_subs(&table, &ied.name, &ap.name, &ap.goose_subs);
                proof {
                    assert(self.found() =~= f0 + vlan_views(tc, before + mine.take(j + 1)));
                }
                j = j + 1;
            }
            proof {
                assert(mine.take(j as int) =~= mine);
                assert(ieds.take(i + 1).drop_last() =~= ieds.take(i as int));
                assert(ieds.take(i + 1).last() == *ied);
            }
            i = i + 1;
        }
        proof { assert(ieds.take(i as int) =~= ieds); }
    }

    /// Reports subscriptions to control blocks that nobody publishes.
    fn check_unauthorized_subscriptions(&mut self, scd_model: &SCDModel)
        ensures
            final(self).found() == old(self).found()
                + unauth_views(published_blocks(all_access_points(scd_model.ieds@)), all_access_points(scd_model.ieds@)),
    {
        let ghost ieds = scd_model.ieds@;
        let mut keys = block_set_new();
        let mut i: usize = 0;
        proof { assert(ieds.take(0) =~= Seq::<IED>::empty()); }
        while i < scd_model.ieds.len()
            invariant
                ieds == scd_model.ieds@,
                i <= ieds.len(),
                block_set_contents(keys) == published_blocks(all_access_points(ieds.take(i as int))),
            decreases ieds.len() - i,
        {
            let ied = &scd_model.ieds[i];
            let ghost before = all_access_points(ieds.take(i as int));
            let ghost mine = ied_access_points(*ied);
            let mut j: usize = 0;
            proof {
                assert(mine.take(0) =~= Seq::<ApEntry>::empty());
                assert(before + mine.take(0) =~= before);
            }
            while j < ied.access_points.len()
                invariant
                    ieds == scd_model.ieds@,
                    i < ieds.len(),
                    *ied == ieds[i as int],
                    mine == ied_access_points(*ied),
                    j <= ied.access_points@.len(),
                    block_set_contents(keys) == published_blocks(before + mine.take(j as int)),
                decreases ied.access_points@.len() - j,
            {
                let ap = &ied.access_points[j];
                proof {
                    assert(mine[j as int] == (ied.name@, *ap));
                    assert((before + mine.take(j + 1)).drop_last() =~= before + mine.take(j as int));
                    assert((before + mine.take(j + 1)).last() == (ied.name@, *ap));
                }
                Self::add_block_keys(&mut keys, &ap.goose_pubs);
                Self::add_block_keys(&mut keys, &ap.sv_pubs);
                j = j + 1;
            }
            proof {
                assert(mine.take(j as int) =~= mine);
                assert(ieds.take(i + 1).drop_last() =~= ieds.take(i as int));
                assert(ieds.take(i + 1).last() == *ied);
            }
            i = i + 1;
        }
        proof { assert(ieds.take(i as int) =~= ieds); }
        let ghost kc = block_set_contents(keys);
        let ghost f0 = self.found();
        let mut i: usize = 0;
        proof {
            assert(ieds.take(0) =~= Seq::<IED>::empty());
            assert(f0 + unauth_views(kc, all_access_points(ieds.take(0))) =~= f0);
        }
        while i < scd_model.ieds.len()
            invariant
                ieds == scd_model.ieds@,
                i <= ieds.len(),
                kc == block_set_contents(keys),
                self.found() == f0 + unauth_views(kc, all_access_points(ieds.take(i as int))),
            decreases ieds.len() - i,
        {
            let ied = &scd_model.ieds[i];
            let ghost before = all_access_points(ieds.take(i as int));
            let ghost mine = ied_access_points(*ied);
            let mut j: usize = 0;
            proof {
                assert(mine.take(0) =~= Seq::<ApEntry>::empty());
                assert(before + mine.take(0) =~= before);
            }
            while j < ied.access_points.len()
                invariant
                    ieds == scd_model.ieds@,
                    i < ieds.len(),
                    *ied == ieds[i as int],
                    mine == ied_access_points(*ied),
                    j <= ied.access_points@.len(),
                    kc == block_set_contents(keys),
                    self.found() == f0 + unauth_views(kc, before + mine.take(j as int)),
                decreases ied.access_points@.len() - j,
            {
                let ap = &ied.access_points[j];
                proof {
                    assert(mine[j as int] == (ied.name@, *ap));
                    assert((before + mine.take(j + 1)).drop_last() =~= before + mine.take(j as int));
                    assert((before + mine.take(j + 1)).last() == (ied.name@, *ap));
                }
                self.check_unauth_subs(&keys, "未授权 GOOSE 订阅: ", &ied.name, &ap.name, &ap.goose_subs);
                self.check_unauth_subs(&keys, "未授权 SV 订阅: ", &ied.name, &ap.name, &ap.sv_subs);
                proof {
                    assert(self.found() =~= f0 + unauth_views(kc, before + mine.take(j + 1)));
                }
                j = j + 1;
            }
            proof {
                assert(mine.take(j as int) =~= mine);
                assert(ieds.take(i + 1).drop_last() =~= ieds.take(i as int));
                assert(ieds.take(i + 1).last() == *ied);
            }
            i = i + 1;
        }
        proof { assert(ieds.take(i as int) =~= ieds); }
    }

    /// Runs every check, in the order: loops, cross-zone edges, VLANs,
    /// unauthorized subscriptions, repeated edges, protection reaching the
    /// process level; and gives every violation found so far.
    pub fn validate_all(&mut self, scd_model: &SCDModel, graph: &DirectedGraph) -> (r: &[IsolationViolation])
        requires
            graph.wf(),
        ensures
            exists|parts: Seq<Seq<usize>>| #[trigger] is_tarjan_listing(graph, parts)
                && final(self).found() == old(self).found() + all_checks(scd_model, graph, parts),
            violation_views(r@) == final(self).found(),
    {
        let ghost f0 = self.found();
        self.check_for_loops(graph);
        let ghost f1 = self.found();
        let ghost parts = choose|parts: Seq<Seq<usize>>| #[trigger] is_tarjan_listing(graph, parts)
            && f1 == f0 + loop_views(graph, parts);
        self.check_cross_zone_connections(scd_model, graph);
        self.check_vlan_consistency(scd_model);
        self.check_unauthorized_subscriptions(scd_model);
        self.check_redundant_paths(graph);
        self.check_protection_isolation(graph);
        proof {
            assert(self.found() =~= f0 + all_checks(scd_model, graph, parts));
        }
        self.violations.as_slice()
    }

    /// The nodes that `start` reaches, `start` among them.
    fn bfs_reachable(graph: &DirectedGraph, start: usize) -> (r: IndexSet)
        requires
            graph.wf(),
            start < graph.n(),
        ensures
            forall|v: usize| #[trigger] index_set_contents(r).contains(v) <==> (v < graph.n() && reaches(graph, start, v)),
    {
        let n = graph.node_count();
        let mut visited = index_set_new();
        let mut queue: std::collections::VecDeque<usize> = std::collections::VecDeque::new();
        queue.push_back(start);
        index_set_insert(&mut visited, start);
        let ghost mut seen: Seq<usize> = seq![start];
        proof {
            crate::graph::facts::lemma_reaches_self(graph, start);
            assert forall|x: usize| #[trigger] index_set_contents(visited).contains(x) <==> seen.contains(x) by {
                if x == start { assert(seen[0] == start); }
            }
        }
        while queue.len() > 0
            invariant
                graph.wf(),
                n == graph.n(),
                start < n,
                seen.no_duplicates(),
                forall|k: int| 0 <= k < seen.len() ==> #[trigger] seen[k] < n,
                forall|x: usize| #[trigger] index_set_contents(visited).contains(x) <==> seen.contains(x),
                seen.contains(start),
                forall|x: usize| #[trigger] seen.contains(x) ==> reaches(graph, start, x),
                forall|k: int| 0 <= k < queue@.len() ==> #[trigger] seen.contains(queue@[k]),
                forall|x: usize, y: usize| seen.contains(x) && !queue@.contains(x) && #[trigger] graph.edge(x as int, y as int)
                    ==> #[trigger] seen.contains(y),
            decreases n - seen.len(), queue@.len(),
        {
            proof { crate::graph::facts::lemma_distinct_below(seen, n as nat); }
            let ghost q0 = queue@;
            let node = queue.pop_front().unwrap();
            let ghost q1 = queue@;
            let ghost seen0 = seen;
            proof {
                assert(q0[0] == node);
                assert(seen.contains(node));
                let k = choose|k: int| 0 <= k < seen.len() && seen[k] == node;
                assert(node < n);
                assert forall|k: int| 0 <= k < queue@.len() implies #[trigger] seen.contains(queue@[k]) by {
                    assert(queue@[k] == q0[k + 1]);
                }
                assert forall|x: usize, y: usize| seen.contains(x) && !queue@.contains(x) && x != node
                    && #[trigger] graph.edge(x as int, y as int) implies #[trigger] seen.contains(y) by {
                    if q0.contains(x) {
                        let k = choose|k: int| 0 <= k < q0.len() && q0[k] == x;
                        if k > 0 { assert(queue@[k - 1] == x); }
                    }
                }
            }
            let row = &graph.adjacency[node];
            let mut j: usize = 0;
            while j < row.len()
                invariant
                    graph.wf(),
                    n == graph.n(),
                    node < n,
                    *row == graph.adjacency@[node as int],
                    j <= row@.len(),
                    seen.no_duplicates(),
                    seen0.len() <= seen.len(),
                    forall|x: usize| seen0.contains(x) ==> #[trigger] seen.contains(x),
                    forall|k: int| 0 <= k < seen.len() ==> #[trigger] seen[k] < n,
                    forall|x: usize| #[trigger] index_set_contents(visited).contains(x) <==> seen.contains(x),
                    seen.contains(node),
                    forall|x: usize| #[trigger] seen.contains(x) ==> reaches(graph, start, x),
                    forall|k: int| 0 <= k < queue@.len() ==> #[trigger] seen.contains(queue@[k]),
                    forall|k: int| 0 <= k < j ==> #[trigger] seen.contains(row@[k]),
                    forall|x: usize, y: usize| seen.contains(x) && !queue@.contains(x) && x != node
                        && #[trigger] graph.edge(x as int, y as int) ==> #[trigger] seen.contains(y),
                    seen.len() == seen0.len() ==> queue@ == q1,
                    seen.len() > seen0.len() || queue@ == q1,
                decreases row@.len() - j,
            {
                let w = row[j];
                proof { assert(graph.adj(node as int)[j as int] == w); }
                let added = index_set_insert(&mut visited, w);
                let ghost qa = queue@;
                let ghost sa = seen;
                if added {
                    queue.push_back(w);
                    proof {
                        lemma_reaches_append(graph, start, node, w);
                        assert(!seen.contains(w));
                        let s2 = seen.push(w);
                        assert forall|a: int, b: int| 0 <= a < b < s2.len() implies s2[a] != s2[b] by {
                            if b == seen.len() { assert(s2[a] == seen[a]); }
                        }
                        assert forall|x: usize| #[trigger] s2.contains(x) <==> (seen.contains(x) || x == w) by {
                            if s2.contains(x) && x != w {
                                let k = choose|k: int| 0 <= k < s2.len() && s2[k] == x;
                                assert(seen[k] == x);
                            }
                            if seen.contains(x) {
                                let k = choose|k: int| 0 <= k < seen.len() && seen[k] == x;
                                assert(s2[k] == x);
                            }
                            if x == w { assert(s2[seen.len() as int] == w); }
                        }
                        seen = s2;
                        assert forall|x: usize, y: usize| seen.contains(x) && !queue@.contains(x) && x != node
                            && #[trigger] graph.edge(x as int, y as int) implies #[trigger] seen.contains(y) by {
                            if x == w { assert(queue@[qa.len() as int] == w); }
                            if qa.contains(x) {
                                let k = choose|k: int| 0 <= k < qa.len() && qa[k] == x;
                                assert(queue@[k] == x);
                            }
                            assert(sa.contains(x));
                            assert(sa.contains(y));
                        }
                        assert forall|k: int| 0 <= k < queue@.len() implies #[trigger] seen.contains(queue@[k]) by {
                            if k < qa.len() { assert(queue@[k] == qa[k]); assert(sa.contains(qa[k])); }
                        }
                        assert forall|k: int| 0 <= k < j + 1 implies #[trigger] seen.contains(row@[k]) by {
                            if k < j { assert(sa.contains(row@[k])); }
                        }
                    }
                }
                j = j + 1;
            }
            proof {
                assert forall|x: usize, y: usize| seen.contains(x) && !queue@.contains(x) && #[trigger] graph.edge(x as int, y as int)
                    implies #[trigger] seen.contains(y) by {
                    if x == node {
                        assert(graph.adj(node as int).contains(y));
                        let k = choose|k: int| 0 <= k < row@.len() && row@[k] == y;
                    }
                }
                crate::graph::facts::lemma_distinct_below(seen, n as nat);
            }
        }
        proof {
            assert forall|v: usize| #[trigger] index_set_contents(visited).contains(v) implies (v < graph.n() && reaches(graph, start, v)) by {
                let k = choose|k: int| 0 <= k < seen.len() && seen[k] == v;
            }
            assert forall|v: usize| v < graph.n() && reaches(graph, start, v) implies #[trigger] index_set_contents(visited).contains(v) by {
                let p = choose|p: Seq<usize>| #[trigger] is_walk(graph, p) && p[0] == start && p.last() == v;
                let s = Set::new(|x: usize| seen.contains(x));
                assert forall|x: usize, y: usize| s.contains(x) && #[trigger] graph.edge(x as int, y as int) implies #[trigger] s.contains(y) by {
                    assert(!queue@.contains(x));
                }
                lemma_closed_holds_reached(graph, s, start, p);
            }
        }
        visited
    }
}

impl Default for IsolationValidator {
    /// A validator that has found nothing.
    fn default() -> (r: Self)
        ensures
            r.found() == Seq::<ViolationView>::empty(),
    {
        IsolationValidator::new()
    }
}

/// Every repeated entry is an entry of the row.
proof fn lemma_dup_entries_from(row: Seq<usize>, i: int)
    requires
        0 <= i < dup_entries(row).len(),
    ensures
        row.contains(dup_entries(row)[i]),
    decreases row.len(),
{
    let prev = dup_entries(row.drop_last());
    if i < prev.len() {
        lemma_dup_entries_from(row.drop_last(), i);
        let k = choose|k: int| 0 <= k < row.drop_last().len() && row.drop_last()[k] == prev[i];
        assert(row[k] == prev[i]);
    } else {
        assert(row[row.len() - 1] == row.last());
    }
}

} // verus!
