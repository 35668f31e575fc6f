//! The order in which the graph builders fill the neighbour lists: by the
//! first link, in the order in which the builder meets the links.

use vstd::prelude::*;

use crate::model::DirectedGraph;

verus! {

/// A link between two nodes, each given by its pair of names.
pub type Link = ((Seq<char>, Seq<char>), (Seq<char>, Seq<char>));

/// `links[k]` is a link from node `a` to node `b` of `g`.
pub open spec fn link_at(g: &DirectedGraph, links: Seq<Link>, k: int, a: int, b: int) -> bool {
    0 <= k < links.len() && links[k] == (g.nodes@[a].key(), g.nodes@[b].key())
}

/// Some link before position `k` of `links` goes from node `a` to node `b`.
pub open spec fn linked_before(g: &DirectedGraph, links: Seq<Link>, k: int, a: int, b: int) -> bool {
    exists|k2: int| k2 < k && #[trigger] link_at(g, links, k2, a, b)
}

/// The edges of `g` are exactly the links between its nodes.
pub open spec fn edges_are_links(g: &DirectedGraph, links: Seq<Link>) -> bool {
    forall|u: int, v: int| #[trigger] g.edge(u, v) <==> 0 <= u < g.n() && 0 <= v < g.n()
        && exists|k: int| #[trigger] link_at(g, links, k, u, v)
}

/// Each node's out-neighbours come in the order of their first link from
/// it, and its in-neighbours in the order of their first link to it.
pub open spec fn in_link_order(g: &DirectedGraph, links: Seq<Link>) -> bool {
    &&& forall|u: int, i: int, j: int, k: int|
        #![trigger link_at(g, links, k, u, g.adj(u)[j] as int), g.adj(u)[i]]
        0 <= u < g.n() && 0 <= i < j < g.adj(u).len() && link_at(g, links, k, u, g.adj(u)[j] as int)
        ==> linked_before(g, links, k, u, g.adj(u)[i] as int)
    &&& forall|v: int, i: int, j: int, k: int|
        #![trigger link_at(g, links, k, g.radj(v)[j] as int, v), g.radj(v)[i]]
        0 <= v < g.n() && 0 <= i < j < g.radj(v).len() && link_at(g, links, k, g.radj(v)[j] as int, v)
        ==> linked_before(g, links, k, g.radj(v)[i] as int, v)
}

/// Two nodes with the same pair of names are the same node.
pub(crate) proof fn lemma_same_key(g: &DirectedGraph, a: int, b: int)
    requires
        g.wf(),
        0 <= a < g.n(),
        0 <= b < g.n(),
        g.nodes@[a].key() == g.nodes@[b].key(),
    ensures
        a == b,
{
}

/// A graph without edges is in the order of no links.
pub(crate) proof fn lemma_link_order_empty(g: &DirectedGraph)
    requires
        g.wf(),
        forall|u: int, v: int| !#[trigger] g.edge(u, v),
    ensures
        edges_are_links(g, Seq::empty()),
        in_link_order(g, Seq::empty()),
{
    assert forall|u: int| 0 <= u < g.n() implies #[trigger] g.adj(u).len() == 0 by {
        if g.adj(u).len() > 0 {
            let v = g.adj(u)[0];
            assert(g.adj(u).contains(v));
            assert(g.edge(u, v as int));
        }
    }
    assert forall|v: int| 0 <= v < g.n() implies #[trigger] g.radj(v).len() == 0 by {
        if g.radj(v).len() > 0 {
            let u = g.radj(v)[0];
            assert(g.radj(v).contains(u));
            assert(g.adj(u as int).contains((v as int) as usize) <==> g.radj(v).contains((u as int) as usize));
            assert(g.edge(u as int, v));
        }
    }
}

/// A link that starts at no node of the graph changes nothing.
pub(crate) proof fn lemma_link_order_skip(g: &DirectedGraph, links: Seq<Link>, l: Link)
    requires
        g.wf(),
        edges_are_links(g, links),
        in_link_order(g, links),
        forall|a: int| 0 <= a < g.n() ==> #[trigger] g.nodes@[a].key() != l.0,
    ensures
        edges_are_links(g, links.push(l)),
        in_link_order(g, links.push(l)),
{
    let l1 = links.push(l);
    assert forall|k: int, a: int, b: int| 0 <= a < g.n() && #[trigger] link_at(g, l1, k, a, b)
        implies k < links.len() && link_at(g, links, k, a, b) by {
        if k == links.len() {
            assert(l1[k] == l);
        }
    }
    assert forall|k: int, a: int, b: int| #[trigger] link_at(g, links, k, a, b) implies link_at(g, l1, k, a, b) by {
        assert(l1[k] == links[k]);
    }
    assert forall|u: int, v: int| #[trigger] g.edge(u, v) <==> 0 <= u < g.n() && 0 <= v < g.n()
        && exists|k: int| #[trigger] link_at(g, l1, k, u, v) by {
        if 0 <= u < g.n() && 0 <= v < g.n() && exists|k: int| #[trigger] link_at(g, l1, k, u, v) {
            let k = choose|k: int| #[trigger] link_at(g, l1, k, u, v);
            assert(link_at(g, links, k, u, v));
        }
        if g.edge(u, v) {
            let k = choose|k: int| #[trigger] link_at(g, links, k, u, v);
            assert(link_at(g, l1, k, u, v));
        }
    }
    assert forall|u: int, i: int, j: int, k: int|
        #![trigger link_at(g, l1, k, u, g.adj(u)[j] as int), g.adj(u)[i]]
        0 <= u < g.n() && 0 <= i < j < g.adj(u).len() && link_at(g, l1, k, u, g.adj(u)[j] as int)
        ==> linked_before(g, l1, k, u, g.adj(u)[i] as int) by {
        if 0 <= u < g.n() && 0 <= i < j < g.adj(u).len() && link_at(g, l1, k, u, g.adj(u)[j] as int) {
            assert(link_at(g, links, k, u, g.adj(u)[j] as int));
            let k2 = choose|k2: int| k2 < k && #[trigger] link_at(g, links, k2, u, g.adj(u)[i] as int);
            assert(link_at(g, l1, k2, u, g.adj(u)[i] as int));
        }
    }
    assert forall|v: int, i: int, j: int, k: int|
        #![trigger link_at(g, l1, k, g.radj(v)[j] as int, v), g.radj(v)[i]]
        0 <= v < g.n() && 0 <= i < j < g.radj(v).len() && link_at(g, l1, k, g.radj(v)[j] as int, v)
        implies linked_before(g, l1, k, g.radj(v)[i] as int, v) by {
        assert(g.radj(v)[j] < g.n());
        assert(link_at(g, links, k, g.radj(v)[j] as int, v));
        let k2 = choose|k2: int| k2 < k && #[trigger] link_at(g, links, k2, g.radj(v)[i] as int, v);
        assert(link_at(g, l1, k2, g.radj(v)[i] as int, v));
    }
    assert(in_link_order(g, l1));
}

/// Adding the edge of a link between two nodes, as `add_edge` does, keeps
/// the neighbour lists in the order of first links.
pub(crate) proof fn lemma_link_order_add(g0: &DirectedGraph, g1: &DirectedGraph, links: Seq<Link>, from: int, to: int)
    requires
        g0.wf(),
        g1.wf(),
        g0.n() <= usize::MAX,
        0 <= from < g0.n(),
        0 <= to < g0.n(),
        g1.nodes@ == g0.nodes@,
        edges_are_links(g0, links),
        in_link_order(g0, links),
        g0.edge(from, to) ==> *g1 == *g0,
        !g0.edge(from, to) ==> {
            &&& forall|u: int| 0 <= u < g1.n() ==> #[trigger] g1.adj(u)
                == if u == from { g0.adj(u).push(to as usize) } else { g0.adj(u) }
            &&& forall|v: int| 0 <= v < g1.n() ==> #[trigger] g1.radj(v)
                == if v == to { g0.radj(v).push(from as usize) } else { g0.radj(v) }
        },
    ensures
        edges_are_links(g1, links.push((g0.nodes@[from].key(), g0.nodes@[to].key()))),
        in_link_order(g1, links.push((g0.nodes@[from].key(), g0.nodes@[to].key()))),
{
    let l = (g0.nodes@[from].key(), g0.nodes@[to].key());
    let l1 = links.push(l);
    let n = g0.n();
    // A link of the longer list is an old link or the new one.
    assert forall|k: int, a: int, b: int| 0 <= a < n && 0 <= b < n && #[trigger] link_at(g1, l1, k, a, b)
        implies (k < links.len() && link_at(g0, links, k, a, b)) || (k == links.len() && a == from && b == to) by {
        if k == links.len() {
            lemma_same_key(g0, a, from);
            lemma_same_key(g0, b, to);
        }
    }
    assert forall|k: int, a: int, b: int| #[trigger] link_at(g0, links, k, a, b) implies link_at(g1, l1, k, a, b) by {
        assert(l1[k] == links[k]);
    }
    assert(link_at(g1, l1, links.len() as int, from, to));
    // The edges.
    assert forall|u: int, v: int| #[trigger] g1.edge(u, v) <==> 0 <= u < n && 0 <= v < n
        && exists|k: int| #[trigger] link_at(g1, l1, k, u, v) by {
        if 0 <= u < n && 0 <= v < n {
            assert(g1.edge(u, v) <==> (g0.edge(u, v) || (u == from && v == to))) by {
                if !g0.edge(from, to) {
                    assert(g1.adj(u) == if u == from { g0.adj(u).push(to as usize) } else { g0.adj(u) });
                    if u == from {
                        assert(g1.adj(u).contains(v as usize) <==> (g0.adj(u).contains(v as usize) || v == to)) by {
                            crate::graph::facts::lemma_push_contains(g0.adj(u), to as usize, v as usize);
                        }
                    }
                }
            }
            if exists|k: int| #[trigger] link_at(g1, l1, k, u, v) {
                let k = choose|k: int| #[trigger] link_at(g1, l1, k, u, v);
                if k < links.len() {
                    assert(link_at(g0, links, k, u, v));
                }
            }
            if g0.edge(u, v) {
                let k = choose|k: int| #[trigger] link_at(g0, links, k, u, v);
                assert(link_at(g1, l1, k, u, v));
            }
        }
    }
    if g0.edge(from, to) {
        let k0 = choose|k: int| #[trigger] link_at(g0, links, k, from, to);
        assert forall|u: int, i: int, j: int, k: int|
            #![trigger link_at(g1, l1, k, u, g1.adj(u)[j] as int), g1.adj(u)[i]]
            0 <= u < n && 0 <= i < j < g1.adj(u).len() && link_at(g1, l1, k, u, g1.adj(u)[j] as int)
            implies linked_before(g1, l1, k, u, g1.adj(u)[i] as int) by {
            assert(g1.adj(u)[j] < n);
            let kk = if k < links.len() { k } else { k0 };
            assert(link_at(g0, links, kk, u, g0.adj(u)[j] as int));
            let k2 = choose|k2: int| k2 < kk && #[trigger] link_at(g0, links, k2, u, g0.adj(u)[i] as int);
            assert(link_at(g1, l1, k2, u, g1.adj(u)[i] as int));
        }
        assert forall|v: int, i: int, j: int, k: int|
            #![trigger link_at(g1, l1, k, g1.radj(v)[j] as int, v), g1.radj(v)[i]]
            0 <= v < n && 0 <= i < j < g1.radj(v).len() && link_at(g1, l1, k, g1.radj(v)[j] as int, v)
            implies linked_before(g1, l1, k, g1.radj(v)[i] as int, v) by {
            assert(g1.radj(v)[j] < n);
            let kk = if k < links.len() { k } else { k0 };
            assert(link_at(g0, links, kk, g0.radj(v)[j] as int, v));
            let k2 = choose|k2: int| k2 < kk && #[trigger] link_at(g0, links, k2, g0.radj(v)[i] as int, v);
            assert(link_at(g1, l1, k2, g1.radj(v)[i] as int, v));
        }
    } else {
        assert forall|u: int, i: int, j: int, k: int|
            #![trigger link_at(g1, l1, k, u, g1.adj(u)[j] as int), g1.adj(u)[i]]
            0 <= u < n && 0 <= i < j < g1.adj(u).len() && link_at(g1, l1, k, u, g1.adj(u)[j] as int)
            implies linked_before(g1, l1, k, u, g1.adj(u)[i] as int) by {
            let a0 = g0.adj(u);
            assert(g1.adj(u) == if u == from { a0.push(to as usize) } else { a0 });
            assert(g1.adj(u)[j] < n);
            assert(g1.adj(u)[i] == a0[i]);
            if u == from && j == a0.len() {
                assert(g1.adj(u)[j] == to);
                if k < links.len() {
                    assert(link_at(g0, links, k, from, to));
                    assert(g0.edge(from, to));
                }
                assert(a0[i] < n);
                assert(a0.contains(a0[i]));
                assert(g0.edge(from, a0[i] as int));
                let k2 = choose|k2: int| #[trigger] link_at(g0, links, k2, from, a0[i] as int);
                assert(link_at(g1, l1, k2, u, g1.adj(u)[i] as int));
            } else {
                assert(g1.adj(u)[j] == a0[j]);
                if k == links.len() {
                    assert(u == from && a0[j] == to);
                    assert(a0.contains(to as usize));
                    assert(g0.edge(from, to));
                }
                assert(link_at(g0, links, k, u, a0[j] as int));
                let k2 = choose|k2: int| k2 < k && #[trigger] link_at(g0, links, k2, u, a0[i] as int);
                assert(link_at(g1, l1, k2, u, g1.adj(u)[i] as int));
            }
        }
        assert forall|v: int, i: int, j: int, k: int|
            #![trigger link_at(g1, l1, k, g1.radj(v)[j] as int, v), g1.radj(v)[i]]
            0 <= v < n && 0 <= i < j < g1.radj(v).len() && link_at(g1, l1, k, g1.radj(v)[j] as int, v)
            implies linked_before(g1, l1, k, g1.radj(v)[i] as int, v) by {
            let r0 = g0.radj(v);
            assert(g1.radj(v) == if v == to { r0.push(from as usize) } else { r0 });
            assert(g1.radj(v)[j] < n);
            assert(g1.radj(v)[i] == r0[i]);
            if v == to && j == r0.len() {
                assert(g1.radj(v)[j] == from);
                if k < links.len() {
                    assert(link_at(g0, links, k, from, to));
                    assert(g0.edge(from, to));
                }
                assert(r0[i] < n);
                assert(r0.contains(r0[i]));
                assert(g0.adj(r0[i] as int).contains((v as int) as usize) <==> g0.radj(v).contains((r0[i] as int) as usize));
                assert(g0.edge(r0[i] as int, to));
                let k2 = choose|k2: int| #[trigger] link_at(g0, links, k2, r0[i] as int, to);
                assert(link_at(g1, l1, k2, g1.radj(v)[i] as int, v));
            } else {
                assert(g1.radj(v)[j] == r0[j]);
                if k == links.len() {
                    assert(v == to && r0[j] == from);
                    assert(r0.contains(from as usize));
                    assert(g0.adj(from).contains((to as int) as usize) <==> g0.radj(to).contains((from as int) as usize));
                    assert(g0.edge(from, to));
                }
                assert(link_at(g0, links, k, r0[j] as int, v));
                let k2 = choose|k2: int| k2 < k && #[trigger] link_at(g0, links, k2, r0[i] as int, v);
                assert(link_at(g1, l1, k2, g1.radj(v)[i] as int, v));
            }
        }
    }
}

/// Link `k` goes between two nodes of `g`.
pub open spec fn link_on_nodes(g: &DirectedGraph, links: Seq<Link>, k: int) -> bool {
    exists|a: int, b: int| 0 <= a < g.n() && 0 <= b < g.n() && #[trigger] link_at(g, links, k, a, b)
}

/// Every link goes between two nodes of `g`.
pub open spec fn links_on_nodes(g: &DirectedGraph, links: Seq<Link>) -> bool {
    forall|k: int| 0 <= k < links.len() ==> #[trigger] link_on_nodes(g, links, k)
}

/// A link between two nodes keeps every link between nodes.
pub(crate) proof fn lemma_links_on_nodes_push(g: &DirectedGraph, links: Seq<Link>, a: int, b: int)
    requires
        links_on_nodes(g, links),
        0 <= a < g.n(),
        0 <= b < g.n(),
    ensures
        links_on_nodes(g, links.push((g.nodes@[a].key(), g.nodes@[b].key()))),
{
    let l1 = links.push((g.nodes@[a].key(), g.nodes@[b].key()));
    assert forall|k: int| 0 <= k < l1.len() implies #[trigger] link_on_nodes(g, l1, k) by {
        if k < links.len() {
            assert(link_on_nodes(g, links, k));
            let (x, y) = choose|x: int, y: int| 0 <= x < g.n() && 0 <= y < g.n() && #[trigger] link_at(g, links, k, x, y);
            assert(link_at(g, l1, k, x, y));
        } else {
            assert(link_at(g, l1, k, a, b));
        }
    }
}

/// A new node with fresh names, without neighbours, keeps the order of the
/// links, none of which reaches it.
pub(crate) proof fn lemma_link_order_grow(g0: &DirectedGraph, g1: &DirectedGraph, links: Seq<Link>)
    requires
        g0.wf(),
        g1.wf(),
        g1.n() == g0.n() + 1,
        forall|u: int| 0 <= u < g0.n() ==> #[trigger] g1.nodes@[u] == g0.nodes@[u],
        forall|u: int| 0 <= u < g0.n() ==> #[trigger] g1.adj(u) == g0.adj(u),
        forall|u: int| 0 <= u < g0.n() ==> #[trigger] g1.radj(u) == g0.radj(u),
        g1.adj(g0.n()) == Seq::<usize>::empty(),
        g1.radj(g0.n()) == Seq::<usize>::empty(),
        edges_are_links(g0, links),
        in_link_order(g0, links),
        links_on_nodes(g0, links),
    ensures
        edges_are_links(g1, links),
        in_link_order(g1, links),
        links_on_nodes(g1, links),
{
    let n0 = g0.n();
    assert forall|k: int, a: int, b: int| 0 <= a < g1.n() && 0 <= b < g1.n() && #[trigger] link_at(g1, links, k, a, b)
        implies a < n0 && b < n0 && link_at(g0, links, k, a, b) by {
        assert(link_on_nodes(g0, links, k));
        let (x, y) = choose|x: int, y: int| 0 <= x < n0 && 0 <= y < n0 && #[trigger] link_at(g0, links, k, x, y);
        assert(g1.nodes@[x] == g0.nodes@[x]);
        assert(g1.nodes@[y] == g0.nodes@[y]);
        lemma_same_key(g1, a, x);
        lemma_same_key(g1, b, y);
    }
    assert forall|k: int, a: int, b: int| 0 <= a < n0 && 0 <= b < n0 && #[trigger] link_at(g0, links, k, a, b)
        implies link_at(g1, links, k, a, b) by {
        assert(g1.nodes@[a] == g0.nodes@[a]);
        assert(g1.nodes@[b] == g0.nodes@[b]);
    }
    assert forall|u: int, v: int| #[trigger] g1.edge(u, v) <==> 0 <= u < g1.n() && 0 <= v < g1.n()
        && exists|k: int| #[trigger] link_at(g1, links, k, u, v) by {
        if 0 <= u < g1.n() && 0 <= v < g1.n() {
            if u == n0 {
                assert(!g1.adj(u).contains(v as usize));
            } else if v == n0 {
                assert(!g1.radj(v).contains(u as usize));
                assert(g1.adj(u).contains((v as int) as usize) <==> g1.radj(v).contains((u as int) as usize));
            } else {
                assert(g1.adj(u) == g0.adj(u));
                assert(g1.edge(u, v) == g0.edge(u, v));
            }
            if exists|k: int| #[trigger] link_at(g1, links, k, u, v) {
                let k = choose|k: int| #[trigger] link_at(g1, links, k, u, v);
                assert(link_at(g0, links, k, u, v));
            }
            if g0.edge(u, v) {
                let k = choose|k: int| #[trigger] link_at(g0, links, k, u, v);
                assert(link_at(g1, links, k, u, v));
            }
        }
    }
    assert forall|u: int, i: int, j: int, k: int|
        #![trigger link_at(g1, links, k, u, g1.adj(u)[j] as int), g1.adj(u)[i]]
        0 <= u < g1.n() && 0 <= i < j < g1.adj(u).len() && link_at(g1, links, k, u, g1.adj(u)[j] as int)
        implies linked_before(g1, links, k, u, g1.adj(u)[i] as int) by {
        assert(u != n0);
        assert(g1.adj(u) == g0.adj(u));
        assert(g0.adj(u)[j] < n0);
        assert(g0.adj(u)[i] < n0);
        assert(link_at(g0, links, k, u, g0.adj(u)[j] as int));
        let k2 = choose|k2: int| k2 < k && #[trigger] link_at(g0, links, k2, u, g0.adj(u)[i] as int);
        assert(link_at(g1, links, k2, u, g1.adj(u)[i] as int));
    }
    assert forall|v: int, i: int, j: int, k: int|
        #![trigger link_at(g1, links, k, g1.radj(v)[j] as int, v), g1.radj(v)[i]]
        0 <= v < g1.n() && 0 <= i < j < g1.radj(v).len() && link_at(g1, links, k, g1.radj(v)[j] as int, v)
        implies linked_before(g1, links, k, g1.radj(v)[i] as int, v) by {
        assert(v != n0);
        assert(g1.radj(v) == g0.radj(v));
        assert(g0.radj(v)[j] < n0);
        assert(g0.radj(v)[i] < n0);
        assert(link_at(g0, links, k, g0.radj(v)[j] as int, v));
        let k2 = choose|k2: int| k2 < k && #[trigger] link_at(g0, links, k2, g0.radj(v)[i] as int, v);
        assert(link_at(g1, links, k2, g1.radj(v)[i] as int, v));
    }
    assert forall|k: int| 0 <= k < links.len() implies #[trigger] link_on_nodes(g1, links, k) by {
        assert(link_on_nodes(g0, links, k));
        let (x, y) = choose|x: int, y: int| 0 <= x < n0 && 0 <= y < n0 && #[trigger] link_at(g0, links, k, x, y);
        assert(link_at(g1, links, k, x, y));
    }
}

/// Whether the links lie on nodes depends on the nodes alone.
pub(crate) proof fn lemma_links_on_nodes_same(g1: &DirectedGraph, g2: &DirectedGraph, links: Seq<Link>)
    requires
        g1.nodes@ == g2.nodes@,
        links_on_nodes(g1, links),
    ensures
        links_on_nodes(g2, links),
{
    assert forall|k: int| 0 <= k < links.len() implies #[trigger] link_on_nodes(g2, links, k) by {
        assert(link_on_nodes(g1, links, k));
        let (a, b) = choose|a: int, b: int| 0 <= a < g1.n() && 0 <= b < g1.n() && #[trigger] link_at(g1, links, k, a, b);
        assert(link_at(g2, links, k, a, b));
    }
}

} // verus!
