//! Topological ordering of the communication graph.

use std::collections::VecDeque;

use vstd::prelude::*;

use crate::graph::facts::{
    below, is_scc_partition, is_walk, lemma_below, lemma_distinct_below, lemma_edge_reaches, lemma_flat_part_no_dup, lemma_reaches_self,
    lemma_reaches_trans, reaches,
};
use crate::model::DirectedGraph;

verus! {

/// `order` lists every node of `g` exactly once.
pub open spec fn is_node_permutation(g: &DirectedGraph, order: Seq<usize>) -> bool {
    &&& order.len() == g.n()
    &&& order.no_duplicates()
    &&& forall|i: int| 0 <= i < order.len() ==> #[trigger] order[i] < g.n()
}

/// `order` lists every node of `g` once, and every edge of `g` leads from
/// an earlier node of `order` to a later one.
pub open spec fn is_topological_order(g: &DirectedGraph, order: Seq<usize>) -> bool {
    &&& is_node_permutation(g, order)
    &&& forall|i: int, j: int| 0 <= i < order.len() && 0 <= j < order.len()
        && #[trigger] g.edge(order[i] as int, order[j] as int) ==> i < j
}

/// Every member of `s` is a node of `g` entered by an edge from a member of `s`.
/// A nonempty such set contains a cycle, and every node in it lies on a cycle
/// or can be reached from one.
pub open spec fn fed_from_within(g: &DirectedGraph, s: Set<usize>) -> bool {
    forall|v: usize| #[trigger] s.contains(v) ==>
        v < g.n() && exists|u: usize| s.contains(u) && #[trigger] g.edge(u as int, v as int)
}

/// The nodes that lie on a cycle of `g` or can be reached from one: the
/// members of the sets that are fed from within.
pub open spec fn cyclic_part(g: &DirectedGraph) -> Set<usize> {
    Set::new(|v: usize| exists|s: Set<usize>| #[trigger] fed_from_within(g, s) && s.contains(v))
}

/// Predecessors of `v` that do not occur in `done`.
pub open spec fn pending_preds(g: &DirectedGraph, v: int, done: Seq<usize>) -> Set<usize> {
    Set::new(|u: usize| g.edge(u as int, v) && !done.contains(u))
}

/// The position in `w` of the last predecessor of `v`, or -1 when no entry
/// of `w` is a predecessor of `v`.
pub open spec fn last_pred(g: &DirectedGraph, w: Seq<usize>, v: usize) -> int
    decreases w.len(),
{
    if w.len() == 0 {
        -1
    } else if g.edge(w.last() as int, v as int) {
        w.len() - 1
    } else {
        last_pred(g, w.drop_last(), v)
    }
}

/// When `v` is freed as the nodes of `w` are emitted in turn: a node with
/// no predecessor in `w` at once, ranked by its own index; any other node
/// when its last predecessor is emitted, ranked by that position and then by
/// its place among that predecessor's successors.
pub open spec fn release_key(g: &DirectedGraph, w: Seq<usize>, v: usize) -> (int, int) {
    let p = last_pred(g, w, v);
    if p < 0 {
        (-1, v as int)
    } else {
        (p, g.adj(w[p] as int).index_of(v))
    }
}

/// Lexicographic order on release keys.
pub open spec fn key_below(a: (int, int), b: (int, int)) -> bool {
    a.0 < b.0 || (a.0 == b.0 && a.1 < b.1)
}

/// `w` lists its nodes in the order in which a first-in first-out queue
/// frees them: by strictly increasing release key.
pub open spec fn is_kahn_order(g: &DirectedGraph, w: Seq<usize>) -> bool {
    forall|i: int, k: int| 0 <= i < k < w.len() ==>
        key_below(#[trigger] release_key(g, w, w[i]), #[trigger] release_key(g, w, w[k]))
}

proof fn lemma_last_pred_bounds(g: &DirectedGraph, w: Seq<usize>, v: usize)
    ensures
        -1 <= last_pred(g, w, v) < w.len(),
        last_pred(g, w, v) >= 0 ==> g.edge(w[last_pred(g, w, v)] as int, v as int),
    decreases w.len(),
{
    if w.len() > 0 && !g.edge(w.last() as int, v as int) {
        lemma_last_pred_bounds(g, w.drop_last(), v);
    }
}

/// Entries after `r` that are no predecessors of `v` leave its last
/// predecessor where it was.
proof fn lemma_last_pred_skip(g: &DirectedGraph, r: Seq<usize>, q: Seq<usize>, v: usize)
    requires
        forall|k: int| 0 <= k < q.len() ==> !g.edge(#[trigger] q[k] as int, v as int),
    ensures
        last_pred(g, r + q, v) == last_pred(g, r, v),
    decreases q.len(),
{
    if q.len() == 0 {
        assert(r + q =~= r);
    } else {
        assert((r + q).drop_last() =~= r + q.drop_last());
        assert((r + q).last() == q[q.len() - 1]);
        lemma_last_pred_skip(g, r, q.drop_last(), v);
    }
}

/// Appending a node that is no predecessor of `v` keeps the release key of `v`.
proof fn lemma_key_push(g: &DirectedGraph, w: Seq<usize>, x: usize, v: usize)
    requires
        !g.edge(x as int, v as int),
    ensures
        release_key(g, w.push(x), v) == release_key(g, w, v),
{
    assert(w.push(x).drop_last() =~= w);
    lemma_last_pred_bounds(g, w, v);
    let p = last_pred(g, w, v);
    if p >= 0 {
        assert(w.push(x)[p] == w[p]);
    }
}

/// Freeing `v`, the `j`-th successor of the last emitted node, keeps the
/// queue in release-key order.
proof fn lemma_kahn_release(g: &DirectedGraph, r: Seq<usize>, q: Seq<usize>, v: usize, j: int)
    requires
        g.wf(),
        r.len() > 0,
        r[r.len() - 1] < g.n(),
        0 <= j < g.adj(r[r.len() - 1] as int).len(),
        g.adj(r[r.len() - 1] as int)[j] == v,
        !r.contains(v),
        forall|k: int| 0 <= k < q.len() ==> !r.contains(#[trigger] q[k]),
        forall|y: usize| #[trigger] g.edge(y as int, v as int) ==> r.contains(y),
        forall|k: int, y: usize| 0 <= k < (r + q).len() && #[trigger] g.edge(y as int, (r + q)[k] as int)
            ==> r.contains(y),
        is_kahn_order(g, r + q),
        forall|k: int| 0 <= k < (r + q).len() ==>
            key_below(#[trigger] release_key(g, r + q, (r + q)[k]), (r.len() - 1, j)),
    ensures
        is_kahn_order(g, r + q.push(v)),
        forall|k: int| 0 <= k < (r + q.push(v)).len() ==>
            key_below(#[trigger] release_key(g, r + q.push(v), (r + q.push(v))[k]), (r.len() - 1, j + 1)),
        forall|k: int, y: usize| 0 <= k < (r + q.push(v)).len() && #[trigger] g.edge(y as int, (r + q.push(v))[k] as int)
            ==> r.contains(y),
{
    let w = r + q;
    let w2 = r + q.push(v);
    assert(w2 =~= w.push(v));
    let u = r[r.len() - 1];
    assert(g.adj(u as int)[j] < g.n());
    assert(g.adj(u as int).contains(v));
    assert(g.edge(u as int, v as int));
    assert forall|k: int| 0 <= k < w.len() implies
        #[trigger] release_key(g, w2, w[k]) == release_key(g, w, w[k]) by {
        if g.edge(v as int, w[k] as int) {
            assert(r.contains(v));
        }
        lemma_key_push(g, w, v, w[k]);
    }
    assert(!g.edge(v as int, v as int));
    lemma_key_push(g, w, v, v);
    assert forall|k: int| 0 <= k < q.len() implies !g.edge(#[trigger] q[k] as int, v as int) by {
        if g.edge(q[k] as int, v as int) {
            assert(r.contains(q[k]));
        }
    }
    lemma_last_pred_skip(g, r, q, v);
    assert(r.drop_last().len() == r.len() - 1);
    assert(last_pred(g, r, v) == r.len() - 1);
    assert(g.adj(u as int).index_of(v) == j) by {
        let i = g.adj(u as int).index_of(v);
        assert(g.adj(u as int)[j] == v);
        assert(g.adj(u as int).no_duplicates());
    }
    assert(release_key(g, w2, v) == (r.len() - 1, j));
    assert forall|i: int, k: int| 0 <= i < k < w2.len() implies
        key_below(#[trigger] release_key(g, w2, w2[i]), #[trigger] release_key(g, w2, w2[k])) by {
        assert(w2[i] == w[i]);
        assert(release_key(g, w2, w2[i]) == release_key(g, w, w[i]));
        if k < w.len() {
            assert(w2[k] == w[k]);
            assert(release_key(g, w2, w2[k]) == release_key(g, w, w[k]));
        } else {
            assert(w2[k] == v);
        }
    }
    assert forall|k: int| 0 <= k < w2.len() implies
        key_below(#[trigger] release_key(g, w2, w2[k]), (r.len() - 1, j + 1)) by {
        if k < w.len() {
            assert(w2[k] == w[k]);
            assert(release_key(g, w2, w2[k]) == release_key(g, w, w[k]));
        } else {
            assert(w2[k] == v);
        }
    }
    assert forall|k: int, y: usize| 0 <= k < w2.len() && #[trigger] g.edge(y as int, w2[k] as int)
        implies r.contains(y) by {
        if k < w.len() {
            assert(w2[k] == w[k]);
        } else {
            assert(w2[k] == v);
        }
    }
}

/// Nodes with no predecessor, listed by increasing index, stand in
/// release-key order.
proof fn lemma_kahn_sources(g: &DirectedGraph, q: Seq<usize>)
    requires
        forall|k: int, y: usize| 0 <= k < q.len() ==> !#[trigger] g.edge(y as int, q[k] as int),
        forall|a: int, b: int| 0 <= a < b < q.len() ==> #[trigger] q[a] < #[trigger] q[b],
    ensures
        is_kahn_order(g, Seq::<usize>::empty() + q),
        forall|k: int| 0 <= k < (Seq::<usize>::empty() + q).len() ==>
            (#[trigger] release_key(g, Seq::<usize>::empty() + q, (Seq::<usize>::empty() + q)[k])).0 < 0,
{
    let w = Seq::<usize>::empty() + q;
    assert(w =~= q);
    assert forall|k: int| 0 <= k < q.len() implies #[trigger] release_key(g, q, q[k]) == (-1int, q[k] as int) by {
        let x = q[k];
        assert forall|m: int| 0 <= m < q.len() implies !g.edge(#[trigger] q[m] as int, x as int) by {
            assert(!g.edge(q[m] as int, q[k] as int));
        }
        lemma_last_pred_skip(g, Seq::<usize>::empty(), q, x);
        assert(Seq::<usize>::empty() + q =~= q);
    }
    assert forall|i: int, k: int| 0 <= i < k < q.len() implies
        key_below(#[trigger] release_key(g, q, q[i]), #[trigger] release_key(g, q, q[k])) by {
        assert(q[i] < q[k]);
    }
}

/// No set fed from within meets a prefix-closed sequence whose edges all go forward.
proof fn lemma_fed_set_misses_order(g: &DirectedGraph, order: Seq<usize>, s: Set<usize>, k: int)
    requires
        fed_from_within(g, s),
        0 <= k <= order.len(),
        forall|i: int, j: int| 0 <= i < order.len() && 0 <= j < order.len()
            && #[trigger] g.edge(order[i] as int, order[j] as int) ==> i < j,
        forall|w: int, u: usize| 0 <= w < order.len() && #[trigger] g.edge(u as int, order[w] as int)
            ==> order.contains(u),
    ensures
        forall|i: int| 0 <= i < k ==> !s.contains(#[trigger] order[i]),
    decreases k,
{
    if k > 0 {
        lemma_fed_set_misses_order(g, order, s, k - 1);
        let x = order[k - 1];
        if s.contains(x) {
            let u = choose|u: usize| s.contains(u) && #[trigger] g.edge(u as int, x as int);
            assert(order.contains(u));
            let j = choose|j: int| 0 <= j < order.len() && order[j] == u;
            assert(g.edge(order[j] as int, order[k - 1] as int));
        }
    }
}

/// A graph whose nodes admit a topological order has no node on a cycle or
/// downstream of one: its cyclic part is empty.
pub proof fn lemma_topological_order_means_acyclic(g: &DirectedGraph, order: Seq<usize>)
    requires
        is_topological_order(g, order),
        g.n() <= usize::MAX,
    ensures
        cyclic_part(g) == Set::<usize>::empty(),
{
    lemma_distinct_below(order, g.n() as nat);
    assert forall|w: int, u: usize| 0 <= w < order.len() && #[trigger] g.edge(u as int, order[w] as int)
        implies order.contains(u) by {}
    assert forall|v: usize| !cyclic_part(g).contains(v) by {
        if cyclic_part(g).contains(v) {
            let s = choose|s: Set<usize>| #[trigger] fed_from_within(g, s) && s.contains(v);
            lemma_fed_set_misses_order(g, order, s, order.len() as int);
            assert(order.contains(v));
            let i = choose|i: int| 0 <= i < order.len() && order[i] == v;
        }
    }
    assert(cyclic_part(g) =~= Set::<usize>::empty());
}

/// Along a walk in a graph with a topological order, every later entry
/// stands later in the order than the first.
proof fn lemma_walk_moves_forward(g: &DirectedGraph, order: Seq<usize>, w: Seq<usize>, k: int)
    requires
        is_topological_order(g, order),
        g.n() <= usize::MAX,
        is_walk(g, w),
        0 < k < w.len(),
    ensures
        exists|i: int, j: int| 0 <= i < j < order.len() && #[trigger] order[i] == w[0] && #[trigger] order[j] == w[k],
    decreases k,
{
    lemma_distinct_below(order, g.n() as nat);
    let a = k - 1;
    assert(g.edge(w[a] as int, w[a + 1] as int));
    assert(order.contains(w[a]));
    assert(order.contains(w[k]));
    let ia = choose|i: int| 0 <= i < order.len() && order[i] == w[a];
    let ik = choose|i: int| 0 <= i < order.len() && order[i] == w[k];
    assert(g.edge(order[ia] as int, order[ik] as int));
    assert(ia < ik);
    if k == 1 {
        assert(order[ik] == w[k]);
    } else {
        lemma_walk_moves_forward(g, order, w, a);
        let (i, j) = choose|i: int, j: int| 0 <= i < j < order.len() && #[trigger] order[i] == w[0] && #[trigger] order[j] == w[a];
        assert(j == ia);
        assert(order[ik] == w[k]);
    }
}

/// In a graph with a topological order no two distinct nodes reach each
/// other.
pub proof fn lemma_topological_order_no_cycle(g: &DirectedGraph, order: Seq<usize>, x: usize, y: usize)
    requires
        is_topological_order(g, order),
        g.n() <= usize::MAX,
        x != y,
        reaches(g, x, y),
    ensures
        !reaches(g, y, x),
{
    let w1 = choose|w: Seq<usize>| #[trigger] is_walk(g, w) && w[0] == x && w.last() == y;
    assert(w1.len() > 1);
    lemma_walk_moves_forward(g, order, w1, w1.len() - 1);
    let (i1, j1) = choose|i: int, j: int| 0 <= i < j < order.len() && #[trigger] order[i] == w1[0] && #[trigger] order[j] == w1[w1.len() - 1];
    if reaches(g, y, x) {
        let w2 = choose|w: Seq<usize>| #[trigger] is_walk(g, w) && w[0] == y && w.last() == x;
        assert(w2.len() > 1);
        lemma_walk_moves_forward(g, order, w2, w2.len() - 1);
        let (i2, j2) = choose|i: int, j: int| 0 <= i < j < order.len() && #[trigger] order[i] == w2[0] && #[trigger] order[j] == w2[w2.len() - 1];
        assert(order[i1] == order[j2]);
        assert(order[j1] == order[i2]);
        assert(i1 == j2 && j1 == i2);
    }
}

/// When the nodes have a topological order, every strongly connected
/// component is a single node.
pub proof fn lemma_sortable_components_are_single(g: &DirectedGraph, order: Seq<usize>, parts: Seq<Seq<usize>>)
    requires
        is_topological_order(g, order),
        is_scc_partition(g, parts),
        g.n() <= usize::MAX,
    ensures
        forall|c: int| 0 <= c < parts.len() ==> #[trigger] parts[c].len() == 1,
{
    assert forall|c: int| 0 <= c < parts.len() implies #[trigger] parts[c].len() == 1 by {
        assert(parts[c].len() > 0);
        if parts[c].len() > 1 {
            lemma_flat_part_no_dup(parts, c);
            assert(parts[c][0] != parts[c][1]);
            assert(reaches(g, parts[c][0], parts[c][1]));
            assert(reaches(g, parts[c][1], parts[c][0]));
            lemma_topological_order_no_cycle(g, order, parts[c][0], parts[c][1]);
        }
    }
}

/// When every predecessor of `x` in `w` stands before position `m`, the
/// release key of `x` depends on the first `m` entries alone.
proof fn lemma_key_prefix(g: &DirectedGraph, w: Seq<usize>, m: int, x: usize)
    requires
        0 <= m <= w.len(),
        forall|p: int| 0 <= p < w.len() && #[trigger] g.edge(w[p] as int, x as int) ==> p < m,
    ensures
        release_key(g, w, x) == release_key(g, w.subrange(0, m), x),
{
    let s = w.subrange(0, m);
    let t = w.subrange(m, w.len() as int);
    assert(w =~= s + t);
    assert forall|k: int| 0 <= k < t.len() implies !g.edge(#[trigger] t[k] as int, x as int) by {
        assert(t[k] == w[m + k]);
    }
    lemma_last_pred_skip(g, s, t, x);
    lemma_last_pred_bounds(g, s, x);
    let p = last_pred(g, s, x);
    if p >= 0 {
        assert(w[p] == s[p]);
    }
}

/// Two topological orders that agree on their first `i` entries, and both
/// list their nodes in release-key order, agree on entry `i` too.
proof fn lemma_kahn_next_agrees(g: &DirectedGraph, a: Seq<usize>, b: Seq<usize>, i: int)
    requires
        g.n() <= usize::MAX,
        is_topological_order(g, a),
        is_kahn_order(g, a),
        is_topological_order(g, b),
        is_kahn_order(g, b),
        0 <= i < a.len(),
        a.subrange(0, i) == b.subrange(0, i),
    ensures
        a[i] == b[i],
{
    lemma_distinct_below(a, g.n() as nat);
    lemma_distinct_below(b, g.n() as nat);
    let s = a.subrange(0, i);
    let x = a[i];
    let y = b[i];
    if x != y {
        assert(b.contains(x));
        assert(a.contains(y));
        let kx = choose|k: int| 0 <= k < b.len() && b[k] == x;
        let ky = choose|k: int| 0 <= k < a.len() && a[k] == y;
        assert(kx > i) by {
            if kx < i {
                assert(s[kx] == b[kx]);
                assert(a[kx] == x);
            }
        }
        assert(ky > i) by {
            if ky < i {
                assert(s[ky] == a[ky]);
                assert(b[ky] == y);
            }
        }
        assert forall|p: int| 0 <= p < a.len() && #[trigger] g.edge(a[p] as int, x as int) implies p < i by {}
        assert forall|p: int| 0 <= p < a.len() && #[trigger] g.edge(a[p] as int, y as int) implies p < i by {
            assert(g.edge(a[p] as int, a[ky] as int));
            assert(b.contains(a[p]));
            let q = choose|q: int| 0 <= q < b.len() && b[q] == a[p];
            assert(g.edge(b[q] as int, b[i] as int));
            assert(q < i);
            assert(s[q] == b[q]);
            assert(a[q] == a[p]);
        }
        assert forall|p: int| 0 <= p < b.len() && #[trigger] g.edge(b[p] as int, y as int) implies p < i by {}
        assert forall|p: int| 0 <= p < b.len() && #[trigger] g.edge(b[p] as int, x as int) implies p < i by {
            assert(g.edge(b[p] as int, b[kx] as int));
            assert(a.contains(b[p]));
            let q = choose|q: int| 0 <= q < a.len() && a[q] == b[p];
            assert(g.edge(a[q] as int, a[i] as int));
            assert(q < i);
            assert(s[q] == a[q]);
            assert(b[q] == b[p]);
        }
        lemma_key_prefix(g, a, i, x);
        lemma_key_prefix(g, a, i, y);
        lemma_key_prefix(g, b, i, x);
        lemma_key_prefix(g, b, i, y);
        assert(key_below(release_key(g, a, a[i]), release_key(g, a, a[ky])));
        assert(key_below(release_key(g, b, b[i]), release_key(g, b, b[kx])));
    }
}

/// Two such orders agree on their first `i` entries.
proof fn lemma_kahn_prefix_agrees(g: &DirectedGraph, a: Seq<usize>, b: Seq<usize>, i: int)
    requires
        g.n() <= usize::MAX,
        is_topological_order(g, a),
        is_kahn_order(g, a),
        is_topological_order(g, b),
        is_kahn_order(g, b),
        0 <= i <= a.len(),
    ensures
        a.subrange(0, i) == b.subrange(0, i),
    decreases i,
{
    if i > 0 {
        lemma_kahn_prefix_agrees(g, a, b, i - 1);
        lemma_kahn_next_agrees(g, a, b, i - 1);
        assert(a.subrange(0, i) =~= a.subrange(0, i - 1).push(a[i - 1]));
        assert(b.subrange(0, i) =~= b.subrange(0, i - 1).push(b[i - 1]));
    } else {
        assert(a.subrange(0, 0) =~= b.subrange(0, 0));
    }
}

/// The order of Kahn's algorithm is determined by the graph: two
/// topological orders that both list their nodes in release-key order are
/// the same sequence.
pub proof fn lemma_kahn_order_unique(g: &DirectedGraph, a: Seq<usize>, b: Seq<usize>)
    requires
        g.n() <= usize::MAX,
        is_topological_order(g, a),
        is_kahn_order(g, a),
        is_topological_order(g, b),
        is_kahn_order(g, b),
    ensures
        a == b,
{
    lemma_kahn_prefix_agrees(g, a, b, a.len() as int);
    let i = a.len() as int;
    assert(a =~= a.subrange(0, i));
    assert(b =~= b.subrange(0, i));
}

/// Kahn's algorithm.
pub struct KahnTopoSort;

impl KahnTopoSort {
    /// A sorter; it holds no state.
    pub fn new() -> Self {
        KahnTopoSort
    }

    /// Orders the nodes so that every edge goes forward, in the order in which
    /// a first-in first-out queue frees them: the nodes without predecessors
    /// by index, then each node once its last predecessor is emitted, in the
    /// order of that predecessor's successors.  When no such order exists,
    /// returns in increasing order the nodes that lie on a cycle or
    /// downstream of one.
    pub fn sort(graph: &DirectedGraph) -> (r: Result<Vec<usize>, Vec<usize>>)
        requires
            graph.wf(),
        ensures
            r is Ok <==> cyclic_part(graph) == Set::<usize>::empty(),
            r matches Ok(order) ==> is_topological_order(graph, order@),
            r matches Ok(order) ==> is_kahn_order(graph, order@),
            r matches Err(rest) ==> {
                &&& rest@.len() > 0
                &&& forall|i: int, j: int| 0 <= i < j < rest@.len() ==> #[trigger] rest@[i] < #[trigger] rest@[j]
                &&& forall|v: usize| #[trigger] rest@.contains(v) <==> cyclic_part(graph).contains(v)
            },
    {
        let n = graph.node_count();
        if n == 0 {
            let order: Vec<usize> = Vec::new();
            proof { lemma_topological_order_means_acyclic(graph, order@); }
            return Ok(order);
        }
        let mut in_degree: Vec<usize> = Vec::new();
        let mut i: usize = 0;
        while i < n
            invariant
                graph.wf(),
                n == graph.n(),
                i <= n,
                in_degree@.len() == i,
                forall|v: int| 0 <= v < i ==> #[trigger] in_degree@[v] == pending_preds(graph, v, Seq::empty()).len(),
            decreases n - i,
        {
            proof {
                let v = i as int;
                assert(pending_preds(graph, v, Seq::empty()) =~= graph.radj(v).to_set()) by {
                    assert forall|u: usize| pending_preds(graph, v, Seq::empty()).contains(u) <==> graph.radj(v).to_set().contains(u) by {
                        if graph.radj(v).contains(u) {
                            let k = choose|k: int| 0 <= k < graph.radj(v).len() && graph.radj(v)[k] == u;
                            assert(graph.radj(v)[k] < n);
                        }
                        if 0 <= u < n {
                            assert(graph.adj(u as int).contains((v as int) as usize) <==> graph.radj(v).contains((u as int) as usize));
                        }
                    }
                }
                graph.radj(v).unique_seq_to_set();
            }
            in_degree.push(graph.in_degree(i));
            i = i + 1;
        }
        let mut queue: VecDeque<usize> = VecDeque::with_capacity(n);
        let mut i: usize = 0;
        while i < n
            invariant
                graph.wf(),
                n == graph.n(),
                i <= n,
                in_degree@.len() == n,
                forall|v: int| 0 <= v < n ==> #[trigger] in_degree@[v] == pending_preds(graph, v, Seq::empty()).len(),
                queue@.no_duplicates(),
                forall|k: int| 0 <= k < queue@.len() ==> #[trigger] queue@[k] < i && in_degree@[queue@[k] as int] == 0,
                forall|v: usize| v < i && in_degree@[v as int] == 0 ==> #[trigger] queue@.contains(v),
                forall|a: int, b: int| 0 <= a < b < queue@.len() ==> #[trigger] queue@[a] < #[trigger] queue@[b],
            decreases n - i,
        {
            let ghost q0 = queue@;
            if in_degree[i] == 0 {
                queue.push_back(i);
            }
            proof {
                assert forall|v: usize| v < i + 1 && in_degree@[v as int] == 0 implies #[trigger] queue@.contains(v) by {
                    if v < i {
                        assert(q0.contains(v));
                        let k = choose|k: int| 0 <= k < q0.len() && q0[k] == v;
                        assert(queue@[k] == v);
                    } else {
                        assert(queue@[q0.len() as int] == v);
                    }
                }
                assert forall|a: int, b: int| 0 <= a < b < queue@.len() implies queue@[a] != queue@[b] by {
                    if b == q0.len() { assert(q0[a] < i); }
                }
                assert forall|a: int, b: int| 0 <= a < b < queue@.len() implies #[trigger] queue@[a] < #[trigger] queue@[b] by {
                    if b == q0.len() { assert(q0[a] < i); } else { assert(q0[a] < q0[b]); }
                }
            }
            i = i + 1;
        }
        let mut result: Vec<usize> = Vec::with_capacity(n);
        proof {
            assert forall|k: int, y: usize| 0 <= k < queue@.len() implies !#[trigger] graph.edge(y as int, queue@[k] as int) by {
                let x = queue@[k];
                lemma_pending_empty(graph, x as int, Seq::empty());
                if graph.edge(y as int, x as int) {
                    assert(pending_preds(graph, x as int, Seq::empty()).contains(y));
                }
            }
            lemma_kahn_sources(graph, queue@);
            assert(result@ =~= Seq::<usize>::empty());
        }
        loop
            invariant
                graph.wf(),
                n == graph.n(),
                n > 0,
                in_degree@.len() == n,
                result@.no_duplicates(),
                forall|k: int| 0 <= k < result@.len() ==> #[trigger] result@[k] < n,
                forall|v: int| 0 <= v < n ==> #[trigger] in_degree@[v] == pending_preds(graph, v, result@).len(),
                forall|k: int| 0 <= k < result@.len() ==> #[trigger] in_degree@[result@[k] as int] == 0,
                forall|i: int, j: int| 0 <= i < result@.len() && 0 <= j < result@.len()
                    && #[trigger] graph.edge(result@[i] as int, result@[j] as int) ==> i < j,
                queue@.no_duplicates(),
                forall|k: int| 0 <= k < queue@.len() ==> #[trigger] queue@[k] < n && in_degree@[queue@[k] as int] == 0
                    && !result@.contains(queue@[k]),
                forall|v: usize| v < n && in_degree@[v as int] == 0 && !result@.contains(v) ==> #[trigger] queue@.contains(v),
                is_kahn_order(graph, result@ + queue@),
                forall|k: int| 0 <= k < (result@ + queue@).len() ==>
                    (#[trigger] release_key(graph, result@ + queue@, (result@ + queue@)[k])).0 < result@.len(),
                forall|k: int, y: usize| 0 <= k < (result@ + queue@).len()
                    && #[trigger] graph.edge(y as int, (result@ + queue@)[k] as int) ==> result@.contains(y),
            ensures
                queue@.len() == 0,
            decreases n - result@.len(),
        {
            proof { lemma_distinct_below(result@, n as nat); }
            let ghost queue_before = queue@;
            let next = queue.pop_front();
            let u = match next {
                Some(u) => u,
                None => break,
            };
            let ghost before = result@;
            proof {
                assert(!before.contains(u));
                lemma_distinct_below(before.push(u), n as nat);
            }
            result.push(u);
            let ghost mid_degree = in_degree@;
            let len = graph.adjacency[u].len();
            proof {
                assert(in_degree@[u as int] == 0);
                assert forall|v: usize| v < n && in_degree@[v as int] == 0 && !result@.contains(v) implies #[trigger] queue@.contains(v) by {
                    assert(!before.contains(v)) by {
                        if before.contains(v) {
                            let k = choose|k: int| 0 <= k < before.len() && before[k] == v;
                            assert(result@[k] == v);
                        }
                    }
                    assert(v != u) by { assert(result@[before.len() as int] == u); }
                    assert(queue_before.contains(v));
                    let k = choose|k: int| 0 <= k < queue_before.len() && queue_before[k] == v;
                    assert(k != 0);
                    assert(queue@[k - 1] == v);
                }
                assert forall|k: int| 0 <= k < queue@.len() implies #[trigger] queue@[k] < n && in_degree@[queue@[k] as int] == 0
                    && !result@.contains(queue@[k]) by {
                    assert(queue@[k] == queue_before[k + 1]);
                    assert(queue_before[k + 1] != queue_before[0]);
                    if result@.contains(queue@[k]) {
                        let m = choose|m: int| 0 <= m < result@.len() && result@[m] == queue@[k];
                        if m < before.len() { assert(before[m] == queue@[k]); }
                    }
                }
                lemma_pending_step(graph, u as int, before, u);
                lemma_pending_empty(graph, u as int, before);
                assert forall|v: int| 0 <= v < n implies
                    #[trigger] in_degree@[v] == pending_preds(graph, v, result@).len()
                        + (if graph.adj(u as int).subrange(0, len as int).contains(v as usize) { 1int } else { 0int }) by {
                    lemma_pending_step(graph, v, before, u);
                    assert(graph.adj(u as int).subrange(0, len as int) =~= graph.adj(u as int));
                }
                assert forall|k: int| 0 <= k < result@.len() implies #[trigger] in_degree@[result@[k] as int] == 0
                    && !graph.adj(u as int).contains(result@[k]) by {
                    let w = result@[k];
                    if k < before.len() {
                        assert(before[k] == w);
                        assert(in_degree@[before[k] as int] == 0);
                        lemma_pending_step(graph, w as int, before, u);
                        lemma_pending_empty(graph, w as int, before);
                        if graph.adj(u as int).contains(w) {
                            assert(graph.adj(u as int).contains(w));
                            let q = choose|q: int| 0 <= q < graph.adj(u as int).len() && graph.adj(u as int)[q] == w;
                            assert(graph.adj(u as int)[q] < n);
                            assert(graph.edge(u as int, w as int));
                            assert(pending_preds(graph, w as int, before).contains(u));
                        }
                    } else {
                        assert(w == u);
                        if graph.adj(u as int).contains(u) {
                            assert(graph.edge(u as int, u as int));
                            assert(pending_preds(graph, u as int, before).contains(u));
                        }
                    }
                }
                assert forall|i: int, k: int| 0 <= i < result@.len() && 0 <= k < result@.len()
                    && #[trigger] graph.edge(result@[i] as int, result@[k] as int) implies i < k by {
                    if i == before.len() {
                        assert(result@[i] == u);
                        assert(0 <= k < result@.len());
                        assert(in_degree@[result@[k] as int] == 0);
                        assert(!graph.adj(u as int).contains(result@[k]));
                    }
                }
            }
            proof {
                assert(result@ + queue@ =~= before + queue_before);
                assert forall|k: int| 0 <= k < (result@ + queue@).len() implies
                    key_below(#[trigger] release_key(graph, result@ + queue@, (result@ + queue@)[k]), (result@.len() - 1, 0int)) by {
                    assert(release_key(graph, before + queue_before, (before + queue_before)[k]).0 < before.len());
                }
                assert forall|k: int, y: usize| 0 <= k < (result@ + queue@).len()
                    && #[trigger] graph.edge(y as int, (result@ + queue@)[k] as int) implies result@.contains(y) by {
                    assert(before.contains(y));
                    let m = choose|m: int| 0 <= m < before.len() && before[m] == y;
                    assert(result@[m] == y);
                }
            }
            let mut j: usize = 0;
            while j < len
                invariant
                    graph.wf(),
                    n == graph.n(),
                    u < n,
                    len == graph.adj(u as int).len(),
                    j <= len,
                    in_degree@.len() == n,
                    result@.no_duplicates(),
                    forall|k: int| 0 <= k < result@.len() ==> #[trigger] result@[k] < n,
                    forall|v: int| 0 <= v < n ==> #[trigger] in_degree@[v] == pending_preds(graph, v, result@).len()
                        + (if graph.adj(u as int).subrange(j as int, len as int).contains(v as usize) { 1int } else { 0int }),
                    forall|k: int| 0 <= k < result@.len() ==> #[trigger] in_degree@[result@[k] as int] == 0
                        && !graph.adj(u as int).contains(result@[k]),
                    forall|i: int, k: int| 0 <= i < result@.len() && 0 <= k < result@.len()
                        && #[trigger] graph.edge(result@[i] as int, result@[k] as int) ==> i < k,
                    queue@.no_duplicates(),
                    forall|k: int| 0 <= k < queue@.len() ==> #[trigger] queue@[k] < n && in_degree@[queue@[k] as int] == 0
                        && !result@.contains(queue@[k]),
                    forall|v: usize| v < n && in_degree@[v as int] == 0 && !result@.contains(v) ==> #[trigger] queue@.contains(v),
                    result@.len() > 0,
                    result@[result@.len() - 1] == u,
                    is_kahn_order(graph, result@ + queue@),
                    forall|k: int| 0 <= k < (result@ + queue@).len() ==>
                        key_below(#[trigger] release_key(graph, result@ + queue@, (result@ + queue@)[k]), (result@.len() - 1, j as int)),
                    forall|k: int, y: usize| 0 <= k < (result@ + queue@).len()
                        && #[trigger] graph.edge(y as int, (result@ + queue@)[k] as int) ==> result@.contains(y),
                decreases len - j,
            {
                let v = graph.adjacency[u][j];
                proof {
                    assert(graph.adj(u as int)[j as int] == v);
                    assert(v < n);
                    let tail = graph.adj(u as int).subrange(j as int, len as int);
                    let rest = graph.adj(u as int).subrange(j + 1, len as int);
                    assert(tail[0] == v);
                    assert(tail.contains(v));
                    assert(!rest.contains(v)) by {
                        if rest.contains(v) {
                            let q = choose|q: int| 0 <= q < rest.len() && rest[q] == v;
                            assert(graph.adj(u as int)[j + 1 + q] == v);
                            assert(graph.adj(u as int).no_duplicates());
                        }
                    }
                    assert forall|x: usize| x != v implies (#[trigger] tail.contains(x) <==> rest.contains(x)) by {
                        if tail.contains(x) {
                            let q = choose|q: int| 0 <= q < tail.len() && tail[q] == x;
                            assert(q != 0);
                            assert(rest[q - 1] == x);
                        }
                        if rest.contains(x) {
                            let q = choose|q: int| 0 <= q < rest.len() && rest[q] == x;
                            assert(tail[q + 1] == x);
                        }
                    }
                    assert(in_degree@[v as int] >= 1);
                    assert(!result@.contains(v)) by {
                        if result@.contains(v) {
                            let k = choose|k: int| 0 <= k < result@.len() && result@[k] == v;
                            assert(in_degree@[result@[k] as int] == 0);
                        }
                    }
                    assert(!queue@.contains(v)) by {
                        if queue@.contains(v) {
                            let k = choose|k: int| 0 <= k < queue@.len() && queue@[k] == v;
                            assert(in_degree@[queue@[k] as int] == 0);
                        }
                    }
                }
                let ghost q0 = queue@;
                let ghost deg0 = in_degree@;
                let d = in_degree[v] - 1;
                in_degree.set(v, d);
                if d == 0 {
                    proof {
                        lemma_pending_step(graph, v as int, result@.drop_last(), u);
                        lemma_pending_empty(graph, v as int, result@);
                        assert(deg0[v as int] == pending_preds(graph, v as int, result@).len() + 1);
                        assert forall|y: usize| #[trigger] graph.edge(y as int, v as int) implies result@.contains(y) by {
                            if !result@.contains(y) {
                                assert(pending_preds(graph, v as int, result@).contains(y));
                            }
                        }
                        lemma_kahn_release(graph, result@, q0, v, j as int);
                    }
                    queue.push_back(v);
                }
                j = j + 1;
                proof {
                    assert forall|x: usize| x < n && in_degree@[x as int] == 0 && !result@.contains(x) implies #[trigger] queue@.contains(x) by {
                        if x != v {
                            assert(deg0[x as int] == in_degree@[x as int]);
                            assert(q0.contains(x));
                            let k = choose|k: int| 0 <= k < q0.len() && q0[k] == x;
                            assert(queue@[k] == x);
                        } else {
                            assert(queue@[q0.len() as int] == x);
                        }
                    }
                    assert forall|k: int| 0 <= k < queue@.len() implies #[trigger] queue@[k] < n && in_degree@[queue@[k] as int] == 0
                        && !result@.contains(queue@[k]) by {
                        if k < q0.len() {
                            assert(queue@[k] == q0[k]);
                            assert(q0[k] != v);
                        }
                    }
                    assert forall|a: int, b: int| 0 <= a < b < queue@.len() implies queue@[a] != queue@[b] by {
                        if b == q0.len() { assert(q0[a] != v); }
                    }
                    assert forall|k: int| 0 <= k < result@.len() implies #[trigger] in_degree@[result@[k] as int] == 0
                        && !graph.adj(u as int).contains(result@[k]) by {
                        assert(result@[k] != v);
                        assert(deg0[result@[k] as int] == 0);
                    }
                    let rest = graph.adj(u as int).subrange(j as int, len as int);
                    assert forall|x: int| 0 <= x < n implies
                        #[trigger] in_degree@[x] == pending_preds(graph, x, result@).len()
                            + (if rest.contains(x as usize) { 1int } else { 0int }) by {
                        let tail = graph.adj(u as int).subrange(j - 1, len as int);
                        if x as usize != v {
                            assert(tail.contains(x as usize) <==> rest.contains(x as usize));
                        }
                    }
                }
            }
            proof {
                assert forall|x: int| 0 <= x < n implies
                    #[trigger] in_degree@[x] == pending_preds(graph, x, result@).len() by {
                    assert(!graph.adj(u as int).subrange(len as int, len as int).contains(x as usize));
                }
                assert forall|k: int| 0 <= k < (result@ + queue@).len() implies
                    (#[trigger] release_key(graph, result@ + queue@, (result@ + queue@)[k])).0 < result@.len() by {
                    assert(key_below(release_key(graph, result@ + queue@, (result@ + queue@)[k]), (result@.len() - 1, len as int)));
                }
            }
        }
        let ghost done = result@;
        proof {
            lemma_distinct_below(done, n as nat);
            assert forall|v: usize| v < n && !done.contains(v) implies #[trigger] in_degree@[v as int] > 0 by {
                if in_degree@[v as int] == 0 {
                    assert(queue@.contains(v));
                }
            }
            assert forall|w: int, x: usize| 0 <= w < done.len() && #[trigger] graph.edge(x as int, done[w] as int)
                implies done.contains(x) by {
                lemma_pending_empty(graph, done[w] as int, done);
                assert(in_degree@[result@[w] as int] == 0);
                assert(in_degree@[done[w] as int] == pending_preds(graph, done[w] as int, done).len());
                if !done.contains(x) {
                    assert(pending_preds(graph, done[w] as int, done).contains(x));
                }
            }
            assert forall|s: Set<usize>, x: usize| #[trigger] fed_from_within(graph, s) && #[trigger] s.contains(x)
                implies x < n && !done.contains(x) by {
                lemma_fed_set_misses_order(graph, done, s, done.len() as int);
                if done.contains(x) {
                    let k = choose|k: int| 0 <= k < done.len() && done[k] == x;
                }
            }
        }
        if result.len() == n {
            proof {
                assert(result@ + queue@ =~= result@);
                assert(is_topological_order(graph, result@));
                lemma_topological_order_means_acyclic(graph, result@);
            }
            return Ok(result);
        }
        let ghost outside = Set::new(|v: usize| v < n && !done.contains(v));
        let mut rest: Vec<usize> = Vec::new();
        let mut i: usize = 0;
        while i < n
            invariant
                n == graph.n(),
                i <= n,
                in_degree@.len() == n,
                forall|v: usize| v < n ==> (#[trigger] in_degree@[v as int] > 0 <==> !done.contains(v)),
                forall|k: int| 0 <= k < rest@.len() ==> #[trigger] rest@[k] < i,
                forall|a: int, b: int| 0 <= a < b < rest@.len() ==> #[trigger] rest@[a] < #[trigger] rest@[b],
                forall|v: usize| #[trigger] rest@.contains(v) <==> (v < i && !done.contains(v)),
            decreases n - i,
        {
            let ghost r0 = rest@;
            assert(in_degree@[(i as usize) as int] > 0 <==> !done.contains(i as usize));
            let pushed = in_degree[i] > 0;
            if pushed {
                rest.push(i);
            }
            proof {
                assert(rest@ == if pushed { r0.push(i) } else { r0 });
                assert forall|v: usize| #[trigger] rest@.contains(v) <==> (v < i + 1 && !done.contains(v)) by {
                    if rest@.contains(v) {
                        let k = choose|k: int| 0 <= k < rest@.len() && rest@[k] == v;
                        if k < r0.len() {
                            assert(r0[k] == v);
                            assert(r0.contains(v));
                        } else {
                            assert(pushed && v == i);
                        }
                    }
                    if v < i + 1 && !done.contains(v) {
                        if v < i {
                            assert(r0.contains(v));
                            let k = choose|k: int| 0 <= k < r0.len() && r0[k] == v;
                            assert(rest@[k] == v);
                        } else {
                            assert(pushed);
                            assert(rest@[r0.len() as int] == v);
                        }
                    }
                }
            }
            i = i + 1;
        }
        proof {
            assert(fed_from_within(graph, outside)) by {
                assert forall|v: usize| #[trigger] outside.contains(v) implies
                    v < graph.n() && exists|x: usize| outside.contains(x) && #[trigger] graph.edge(x as int, v as int) by {
                    lemma_pending_empty(graph, v as int, done);
                    assert(in_degree@[v as int] > 0);
                    assert(in_degree@[v as int] == pending_preds(graph, v as int, done).len());
                    assert(pending_preds(graph, v as int, done).len() > 0);
                    let x = pending_preds(graph, v as int, done).choose();
                    if !pending_preds(graph, v as int, done).contains(x) {
                        assert(pending_preds(graph, v as int, done) =~= Set::<usize>::empty());
                    }
                    assert(outside.contains(x));
                }
            }
            assert forall|v: usize| #[trigger] rest@.contains(v) <==> cyclic_part(graph).contains(v) by {
                if rest@.contains(v) {
                    assert(outside.contains(v));
                }
            }
            let missing = choose|v: usize| v < n && !#[trigger] done.contains(v);
            assert(rest@.contains(missing));
            assert(cyclic_part(graph).contains(missing));
        }
        Err(rest)
    }

    /// Whether the nodes admit an order in which every edge goes forward,
    /// that is, whether no node lies on a cycle or downstream of one.
    pub fn has_topological_order(graph: &DirectedGraph) -> (b: bool)
        requires
            graph.wf(),
        ensures
            b == (cyclic_part(graph) == Set::<usize>::empty()),
    {
        Self::sort(graph).is_ok()
    }
}

impl Default for KahnTopoSort {
    /// The same as `new`.
    fn default() -> (r: Self)
        ensures
            r == KahnTopoSort,
    {
        KahnTopoSort::new()
    }
}

/// The pending predecessors of a node form a finite set, and emitting `u`
/// removes `u` from them exactly when `u` is a predecessor.
proof fn lemma_pending_step(g: &DirectedGraph, v: int, before: Seq<usize>, u: usize)
    requires
        g.wf(),
        g.n() <= usize::MAX,
        0 <= v < g.n(),
        u < g.n(),
        !before.contains(u),
    ensures
        pending_preds(g, v, before).finite(),
        pending_preds(g, v, before.push(u)).finite(),
        pending_preds(g, v, before).len() == pending_preds(g, v, before.push(u)).len()
            + (if g.adj(u as int).contains(v as usize) { 1int } else { 0int }),
{
    lemma_pending_finite(g, v, before);
    lemma_pending_finite(g, v, before.push(u));
    let a = pending_preds(g, v, before);
    let b = pending_preds(g, v, before.push(u));
    assert forall|x: usize| b.contains(x) <==> (a.contains(x) && x != u) by {
        assert(before.push(u).contains(x) <==> (before.contains(x) || x == u)) by {
            if before.push(u).contains(x) {
                let k = choose|k: int| 0 <= k < before.push(u).len() && before.push(u)[k] == x;
                if k < before.len() { assert(before[k] == x); }
            }
            if before.contains(x) {
                let k = choose|k: int| 0 <= k < before.len() && before[k] == x;
                assert(before.push(u)[k] == x);
            }
            if x == u { assert(before.push(u)[before.len() as int] == x); }
        }
    }
    if g.adj(u as int).contains(v as usize) {
        assert(a.contains(u));
        assert(b =~= a.remove(u));
    } else {
        assert(b =~= a);
    }
}

/// The pending predecessors of a node form a finite set.
proof fn lemma_pending_finite(g: &DirectedGraph, v: int, done: Seq<usize>)
    requires
        g.wf(),
        g.n() <= usize::MAX,
        0 <= v < g.n(),
    ensures
        pending_preds(g, v, done).finite(),
{
    crate::graph::facts::lemma_below(g.n() as nat);
    assert(pending_preds(g, v, done).subset_of(crate::graph::facts::below(g.n())));
    vstd::set_lib::lemma_len_subset(pending_preds(g, v, done), crate::graph::facts::below(g.n()));
}

/// A finite set of pending predecessors with no element is empty.
proof fn lemma_pending_empty(g: &DirectedGraph, v: int, done: Seq<usize>)
    requires
        g.wf(),
        g.n() <= usize::MAX,
        0 <= v < g.n(),
    ensures
        pending_preds(g, v, done).finite(),
        pending_preds(g, v, done).len() == 0 ==> pending_preds(g, v, done) == Set::<usize>::empty(),
        pending_preds(g, v, done).len() > 0 ==> pending_preds(g, v, done).contains(pending_preds(g, v, done).choose()),
{
    lemma_pending_finite(g, v, done);
    if pending_preds(g, v, done).len() == 0 {
        pending_preds(g, v, done).lemma_len0_is_empty();
    } else {
        if pending_preds(g, v, done) == Set::<usize>::empty() {
            assert(Set::<usize>::empty().len() == 0);
        }
    }
}

/// The nodes that reach `v`.
spec fn reaching(g: &DirectedGraph, v: usize) -> Set<usize> {
    Set::new(|w: usize| w < g.n() && reaches(g, w, v))
}

/// Without self-loops and without two distinct nodes that reach each other,
/// no set is fed from within: following edges backwards from a member would
/// reach ever fewer nodes.
proof fn lemma_no_fed_member(g: &DirectedGraph, s: Set<usize>, v: usize)
    requires
        g.n() <= usize::MAX,
        forall|w: int| 0 <= w < g.n() ==> !#[trigger] g.edge(w, w),
        forall|x: usize, y: usize| x < g.n() && y < g.n() && x != y && #[trigger] reaches(g, x, y)
            ==> !#[trigger] reaches(g, y, x),
    ensures
        !(fed_from_within(g, s) && s.contains(v)),
    decreases reaching(g, v).len(),
{
    if fed_from_within(g, s) && s.contains(v) {
        lemma_below(g.n() as nat);
        let rv = reaching(g, v);
        assert(rv.subset_of(below(g.n())));
        vstd::set_lib::lemma_len_subset(rv, below(g.n()));
        let u = choose|u: usize| s.contains(u) && #[trigger] g.edge(u as int, v as int);
        assert(u != v) by {
            if u == v { assert(g.edge(v as int, v as int)); }
        }
        lemma_edge_reaches(g, u, v);
        lemma_reaches_self(g, v);
        let ru = reaching(g, u);
        assert forall|w: usize| ru.contains(w) implies rv.remove(v).contains(w) by {
            lemma_reaches_trans(g, w, u, v);
            if w == v {
                assert(reaches(g, v, u));
            }
        }
        assert(ru.subset_of(rv.remove(v)));
        vstd::set_lib::lemma_len_subset(ru, rv.remove(v));
        assert(rv.contains(v));
        assert(rv.remove(v).len() + 1 == rv.len());
        lemma_no_fed_member(g, s, u);
    }
}

/// The last step of a walk of two or more entries.
proof fn lemma_walk_last_step(g: &DirectedGraph, w: Seq<usize>)
    requires
        is_walk(g, w),
        w.len() > 1,
    ensures
        reaches(g, w[0], w[w.len() - 2]),
        g.edge(w[w.len() - 2] as int, w.last() as int),
{
    let p = w.take(w.len() - 1);
    assert forall|i: int| 0 <= i < p.len() - 1 implies #[trigger] g.edge(p[i] as int, p[i + 1] as int) by {
        assert(g.edge(w[i] as int, w[i + 1] as int));
    }
    assert(is_walk(g, p));
    assert(p.last() == w[w.len() - 2]);
    assert(g.edge(w[w.len() - 2] as int, w[w.len() - 2 + 1] as int));
}

/// A node that reaches `x` and is reached from it, when `x` and another
/// node reach each other, has a predecessor of the same kind.
proof fn lemma_mutual_pred(g: &DirectedGraph, x: usize, y: usize, v: usize) -> (u: usize)
    requires
        x != y,
        reaches(g, x, y),
        reaches(g, y, x),
        reaches(g, x, v),
        reaches(g, v, x),
    ensures
        u < g.n(),
        reaches(g, x, u),
        reaches(g, u, x),
        g.edge(u as int, v as int),
{
    if v == x {
        let w = choose|w: Seq<usize>| #[trigger] is_walk(g, w) && w[0] == y && w.last() == x;
        assert(w.len() > 1);
        lemma_walk_last_step(g, w);
        let u = w[w.len() - 2];
        lemma_edge_reaches(g, u, v);
        lemma_reaches_trans(g, x, y, u);
        u
    } else {
        let w = choose|w: Seq<usize>| #[trigger] is_walk(g, w) && w[0] == x && w.last() == v;
        assert(w.len() > 1);
        lemma_walk_last_step(g, w);
        let u = w[w.len() - 2];
        lemma_edge_reaches(g, u, v);
        lemma_reaches_trans(g, u, v, x);
        u
    }
}

/// The nodes that reach `x` and that `x` reaches, when `x` and another node
/// reach each other, form a set fed from within.
proof fn lemma_mutual_set_fed(g: &DirectedGraph, x: usize, y: usize)
    requires
        x != y,
        reaches(g, x, y),
        reaches(g, y, x),
    ensures
        fed_from_within(g, Set::new(|v: usize| v < g.n() && reaches(g, x, v) && reaches(g, v, x))),
{
    let s = Set::new(|v: usize| v < g.n() && reaches(g, x, v) && reaches(g, v, x));
    assert forall|v: usize| #[trigger] s.contains(v) implies
        v < g.n() && exists|u: usize| s.contains(u) && #[trigger] g.edge(u as int, v as int) by {
        let u = lemma_mutual_pred(g, x, y, v);
        assert(s.contains(u));
    }
}

/// On a graph without self-loops, two distinct nodes reach each other exactly
/// when some node lies on a cycle or downstream of one: the graph has a cycle
/// exactly when it has no topological order.
pub proof fn lemma_cycle_iff_unsortable(g: &DirectedGraph)
    requires
        g.wf(),
        g.n() <= usize::MAX,
        forall|v: int| 0 <= v < g.n() ==> !#[trigger] g.edge(v, v),
    ensures
        (exists|x: usize, y: usize| x < g.n() && y < g.n() && x != y
            && #[trigger] reaches(g, x, y) && #[trigger] reaches(g, y, x))
            <==> cyclic_part(g) != Set::<usize>::empty(),
{
    if exists|x: usize, y: usize| x < g.n() && y < g.n() && x != y
        && #[trigger] reaches(g, x, y) && #[trigger] reaches(g, y, x) {
        let (x, y) = choose|x: usize, y: usize| x < g.n() && y < g.n() && x != y
            && #[trigger] reaches(g, x, y) && #[trigger] reaches(g, y, x);
        lemma_mutual_set_fed(g, x, y);
        let s = Set::new(|v: usize| v < g.n() && reaches(g, x, v) && reaches(g, v, x));
        lemma_reaches_self(g, x);
        assert(s.contains(x));
        assert(cyclic_part(g).contains(x));
    } else {
        if cyclic_part(g) != Set::<usize>::empty() {
            let v = cyclic_part(g).choose();
            assert(cyclic_part(g).contains(v)) by {
                if !cyclic_part(g).contains(v) {
                    assert(cyclic_part(g) =~= Set::<usize>::empty());
                }
            }
            let s = choose|s: Set<usize>| #[trigger] fed_from_within(g, s) && s.contains(v);
            lemma_no_fed_member(g, s, v);
        }
    }
}

} // verus!
