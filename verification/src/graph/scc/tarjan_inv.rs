//! What Tarjan's search knows about reachability while it runs, and why each
//! of its steps keeps that knowledge.

use vstd::prelude::*;

use super::{idx, top_fresh, TarjanFrame, TarjanState};
use crate::graph::facts::{
    flat, is_component, lemma_closed_reach, lemma_concat_contains, lemma_edge_reaches, lemma_flat_member,
    lemma_push_contains, lemma_reaches_self, lemma_reaches_trans, reaches, views,
};
use crate::model::DirectedGraph;

verus! {

/// The number of frames whose node has been entered.
pub(super) open spec fn entered(cs: Seq<TarjanFrame>) -> int {
    cs.len() - top_fresh(cs)
}

/// `v` was entered after the node of frame `i` and, when frame `i` is not
/// the last entered one, before the node of frame `i + 1`: a finished node
/// whose low link has been passed on to frame `i`.
spec fn owned_by(st: &TarjanState, i: int, v: usize) -> bool {
    let cs = st.call_stack@;
    let ind = st.indices@;
    let m = entered(cs);
    &&& 0 <= i < m
    &&& idx(ind, cs[i].node) < idx(ind, v)
    &&& (i + 1 == m || idx(ind, v) < idx(ind, cs[i + 1].node))
}

/// A neighbour `d` already looked at by a frame whose low link is `low`:
/// it has been entered, unless it is the node of the frame pushed last and
/// not yet entered, and when it is on the stack the low link is at most its
/// index.
spec fn looked_at(st: &TarjanState, d: usize, low: usize) -> bool {
    let cs = st.call_stack@;
    &&& st.indices@[d as int] is Some || (top_fresh(cs) == 1 && d == cs.last().node)
    &&& st.stack@.contains(d) ==> low <= idx(st.indices@, d)
}

/// Each frame's node is reached by an edge from the node of the frame below.
#[verifier::opaque]
spec fn inv_tree(st: &TarjanState, g: &DirectedGraph) -> bool {
    let cs = st.call_stack@;
    forall|i: int| 0 < i < cs.len() ==> g.edge(cs[i - 1].node as int, (#[trigger] cs[i]).node as int)
}

/// Each entered frame reaches every node entered after it.
#[verifier::opaque]
spec fn inv_down(st: &TarjanState, g: &DirectedGraph) -> bool {
    let cs = st.call_stack@;
    let ind = st.indices@;
    forall|i: int, v: usize| 0 <= i < entered(cs) && v < g.n() && (#[trigger] ind[v as int]) is Some
        && idx(ind, v) >= idx(ind, (#[trigger] cs[i]).node) ==> reaches(g, cs[i].node, v)
}

/// Each node on the stack reaches an entered frame entered no later than it.
#[verifier::opaque]
spec fn inv_up(st: &TarjanState, g: &DirectedGraph) -> bool {
    let cs = st.call_stack@;
    let ind = st.indices@;
    forall|v: usize| #[trigger] st.stack@.contains(v) ==> exists|i: int| 0 <= i < entered(cs)
        && idx(ind, (#[trigger] cs[i]).node) <= idx(ind, v) && reaches(g, v, cs[i].node)
}

/// Each node on the stack reaches a stack node whose index is its low link.
#[verifier::opaque]
spec fn inv_low(st: &TarjanState, g: &DirectedGraph) -> bool {
    let stack = st.stack@;
    forall|v: usize| #[trigger] stack.contains(v) ==> exists|k: int| 0 <= k < stack.len()
        && idx(st.indices@, #[trigger] stack[k]) == st.lowlink@[v as int] && reaches(g, v, stack[k])
}

/// The neighbours looked at by an entered frame.
#[verifier::opaque]
spec fn inv_looked(st: &TarjanState, g: &DirectedGraph) -> bool {
    let cs = st.call_stack@;
    forall|i: int, k: int| 0 <= i < entered(cs) && 0 <= k < (#[trigger] cs[i]).neighbor_idx ==>
        looked_at(st, #[trigger] g.adj(cs[i].node as int)[k], st.lowlink@[cs[i].node as int])
}

/// The neighbours of the finished nodes on the stack have been entered and,
/// when on the stack, are bounded below by the low link of the owning frame.
#[verifier::opaque]
spec fn inv_owned(st: &TarjanState, g: &DirectedGraph) -> bool {
    let cs = st.call_stack@;
    let ind = st.indices@;
    forall|i: int, v: usize, d: usize| #![trigger owned_by(st, i, v), g.edge(v as int, d as int)]
        owned_by(st, i, v) && st.stack@.contains(v) && g.edge(v as int, d as int) ==>
        ind[d as int] is Some && (st.stack@.contains(d) ==> st.lowlink@[cs[i].node as int] <= idx(ind, d))
}

/// The nodes of the components found are closed under edges.
#[verifier::opaque]
spec fn inv_closed(st: &TarjanState, g: &DirectedGraph) -> bool {
    let out = flat(views(st.sccs@));
    forall|x: usize, y: usize| out.contains(x) && #[trigger] g.edge(x as int, y as int) ==> out.contains(y)
}

/// The components found are strongly connected components.
#[verifier::opaque]
spec fn inv_comps(st: &TarjanState, g: &DirectedGraph) -> bool {
    forall|c: int| 0 <= c < st.sccs@.len() ==> is_component(g, #[trigger] st.sccs@[c]@)
}

/// Every edge that leaves a component found leads into that component or
/// into one found before it.
#[verifier::opaque]
spec fn inv_order(st: &TarjanState, g: &DirectedGraph) -> bool {
    forall|c: int, i: int, y: usize| 0 <= c < st.sccs@.len() && 0 <= i < st.sccs@[c]@.len()
        && #[trigger] g.edge(st.sccs@[c]@[i] as int, y as int) ==>
        exists|c2: int| 0 <= c2 <= c && #[trigger] st.sccs@[c2]@.contains(y)
}

/// Everything the search knows about reachability.
pub(super) closed spec fn reach_inv(st: &TarjanState, g: &DirectedGraph) -> bool {
    &&& inv_tree(st, g)
    &&& inv_down(st, g)
    &&& inv_up(st, g)
    &&& inv_low(st, g)
    &&& inv_looked(st, g)
    &&& inv_owned(st, g)
    &&& inv_closed(st, g)
    &&& inv_comps(st, g)
    &&& inv_order(st, g)
}

/// Before anything is entered, the knowledge holds.
pub(super) proof fn lemma_initial(st: &TarjanState, g: &DirectedGraph)
    requires
        st.call_stack@.len() == 0,
        st.stack@.len() == 0,
        st.sccs@.len() == 0,
    ensures
        reach_inv(st, g),
{
    reveal(inv_tree);
    reveal(inv_down);
    reveal(inv_up);
    reveal(inv_low);
    reveal(inv_looked);
    reveal(inv_owned);
    reveal(inv_closed);
    reveal(inv_comps);
    reveal(inv_order);
    assert(flat(views(st.sccs@)) =~= Seq::<usize>::empty());
}

/// Every component found is a strongly connected component, and every edge
/// leaving one leads into it or into one found before it.
pub(super) proof fn lemma_components(st: &TarjanState, g: &DirectedGraph)
    requires
        reach_inv(st, g),
    ensures
        forall|c: int| 0 <= c < st.sccs@.len() ==> is_component(g, #[trigger] st.sccs@[c]@),
        forall|c: int, i: int, y: usize| 0 <= c < st.sccs@.len() && 0 <= i < st.sccs@[c]@.len()
            && #[trigger] g.edge(st.sccs@[c]@[i] as int, y as int) ==>
            exists|c2: int| 0 <= c2 <= c && #[trigger] st.sccs@[c2]@.contains(y),
{
    reveal(inv_comps);
    reveal(inv_order);
}

/// Pushing the first frame of a search keeps the knowledge.
pub(super) proof fn lemma_start_keeps(g: &DirectedGraph, s0: &TarjanState, s1: &TarjanState, start_v: usize)
    requires
        reach_inv(s0, g),
        s0.call_stack@.len() == 0,
        s0.stack@.len() == 0,
        s1.call_stack@ == seq![TarjanFrame { node: start_v, neighbor_idx: 0, visited: false }],
        s1.stack@ == s0.stack@,
        s1.sccs@ == s0.sccs@,
        s1.indices@ == s0.indices@,
        s1.lowlink@ == s0.lowlink@,
    ensures
        reach_inv(s1, g),
{
    reveal(inv_tree);
    reveal(inv_down);
    reveal(inv_up);
    reveal(inv_low);
    reveal(inv_looked);
    reveal(inv_owned);
    reveal(inv_closed);
    reveal(inv_comps);
    reveal(inv_order);
    assert(entered(s1.call_stack@) == 0);
}

/// An entered node's index is below the number of nodes entered.
proof fn lemma_idx_below(st: &TarjanState, g: &DirectedGraph, v: usize)
    requires
        st.settled(g),
        v < g.n(),
        st.indices@[v as int] is Some,
    ensures
        0 <= idx(st.indices@, v) < st.index,
{
    let order = st.order@;
    assert(order.contains(v));
    let k = choose|k: int| 0 <= k < order.len() && order[k] == v;
    assert(st.indices@[order[k] as int] == Some(k as usize));
}

/// How entering the node of the top frame changes the state.
pub(super) open spec fn enter_step(s0: &TarjanState, s1: &TarjanState) -> bool {
    let cs0 = s0.call_stack@;
    let w = cs0.last().node;
    &&& cs0.len() > 0
    &&& !cs0.last().visited
    &&& s1.call_stack@ == cs0.update(cs0.len() - 1, TarjanFrame { node: w, neighbor_idx: cs0.last().neighbor_idx, visited: true })
    &&& s1.indices@ == s0.indices@.update(w as int, Some(s0.index))
    &&& s1.lowlink@ == s0.lowlink@.update(w as int, s0.index)
    &&& s1.stack@ == s0.stack@.push(w)
    &&& s1.sccs@ == s0.sccs@
}

/// Facts shared by the proofs about entering a node.
proof fn lemma_enter_facts(g: &DirectedGraph, s0: &TarjanState, s1: &TarjanState, start_v: usize, base: int, start_order: Seq<usize>)
    requires
        s0.searching(g, start_v, base, start_order),
        s1.searching(g, start_v, base, start_order),
        enter_step(s0, s1),
    ensures
        ({
            let cs0 = s0.call_stack@;
            let cs1 = s1.call_stack@;
            let t = cs0.len() - 1;
            let w = cs0[t].node;
            &&& top_fresh(cs0) == 1
            &&& top_fresh(cs1) == 0
            &&& entered(cs0) == t
            &&& entered(cs1) == t + 1
            &&& s0.indices@[w as int] is None
            &&& w < g.n()
            &&& idx(s1.indices@, w) == s0.index
            &&& cs1.len() == cs0.len()
            &&& forall|i: int| 0 <= i < cs1.len() ==> (#[trigger] cs1[i]).node == cs0[i].node
                && cs1[i].neighbor_idx == cs0[i].neighbor_idx
            &&& forall|i: int| 0 <= i < t ==> #[trigger] s0.indices@[cs0[i].node as int] is Some && cs0[i].node != w
                && idx(s1.indices@, cs1[i].node) == idx(s0.indices@, cs0[i].node) && idx(s0.indices@, cs0[i].node) < s0.index
                && s1.lowlink@[cs1[i].node as int] == s0.lowlink@[cs0[i].node as int]
                && s0.lowlink@[cs0[i].node as int] <= idx(s0.indices@, cs0[i].node)
                && s0.stack@.contains(cs0[i].node)
            &&& forall|x: usize| #[trigger] s1.stack@.contains(x) <==> (s0.stack@.contains(x) || x == w)
            &&& forall|x: usize| s0.stack@.contains(x) ==> #[trigger] s0.indices@[x as int] is Some && x != w && x < g.n()
                && idx(s1.indices@, x) == idx(s0.indices@, x) && idx(s0.indices@, x) < s0.index
                && s1.lowlink@[x as int] == s0.lowlink@[x as int]
        }),
{
    let cs0 = s0.call_stack@;
    let cs1 = s1.call_stack@;
    let t = cs0.len() - 1;
    let w = cs0[t].node;
    assert(cs0[t] == cs0.last());
    assert forall|i: int| 0 <= i < t implies #[trigger] s0.indices@[cs0[i].node as int] is Some && cs0[i].node != w
        && idx(s1.indices@, cs1[i].node) == idx(s0.indices@, cs0[i].node) && idx(s0.indices@, cs0[i].node) < s0.index
        && s1.lowlink@[cs1[i].node as int] == s0.lowlink@[cs0[i].node as int]
        && s0.lowlink@[cs0[i].node as int] <= idx(s0.indices@, cs0[i].node)
        && s0.stack@.contains(cs0[i].node) by {
        assert(cs0[i].visited);
        lemma_idx_below(s0, g, cs0[i].node);
        assert(s0.on_stack@[cs0[i].node as int]);
        let k = choose|k: int| 0 <= k < s0.stack@.len() && s0.stack@[k] == cs0[i].node;
        assert(idx(s0.indices@, s0.stack@[k]) >= base);
    }
    assert forall|x: usize| #[trigger] s1.stack@.contains(x) <==> (s0.stack@.contains(x) || x == w) by {
        lemma_push_contains(s0.stack@, w, x);
    }
    assert forall|x: usize| s0.stack@.contains(x) implies #[trigger] s0.indices@[x as int] is Some && x != w && x < g.n()
        && idx(s1.indices@, x) == idx(s0.indices@, x) && idx(s0.indices@, x) < s0.index
        && s1.lowlink@[x as int] == s0.lowlink@[x as int] by {
        let k = choose|k: int| 0 <= k < s0.stack@.len() && s0.stack@[k] == x;
        assert(s0.indices@[s0.stack@[k] as int] is Some);
        lemma_idx_below(s0, g, x);
    }
}

/// Entering keeps the tree edges and the reach of the entered frames.
proof fn lemma_enter_down(g: &DirectedGraph, s0: &TarjanState, s1: &TarjanState, start_v: usize, base: int, start_order: Seq<usize>)
    requires
        s0.searching(g, start_v, base, start_order),
        s1.searching(g, start_v, base, start_order),
        enter_step(s0, s1),
        inv_tree(s0, g),
        inv_down(s0, g),
    ensures
        inv_tree(s1, g),
        inv_down(s1, g),
{
    reveal(inv_tree);
    reveal(inv_down);
    lemma_enter_facts(g, s0, s1, start_v, base, start_order);
    let n = g.n();
    let cs0 = s0.call_stack@;
    let cs1 = s1.call_stack@;
    let ind0 = s0.indices@;
    let ind1 = s1.indices@;
    let t = cs0.len() - 1;
    let w = cs0[t].node;
    assert forall|i: int| 0 < i < cs1.len() implies g.edge(cs1[i - 1].node as int, (#[trigger] cs1[i]).node as int) by {
        assert(cs1[i - 1].node == cs0[i - 1].node);
        assert(g.edge(cs0[i - 1].node as int, cs0[i].node as int));
    }
    assert forall|i: int, v: usize| 0 <= i < entered(cs1) && v < n && (#[trigger] ind1[v as int]) is Some
        && idx(ind1, v) >= idx(ind1, (#[trigger] cs1[i]).node) implies reaches(g, cs1[i].node, v) by {
        if v == w {
            if i == t {
                lemma_reaches_self(g, w);
            } else {
                let p = cs0[t - 1].node;
                assert(ind0[p as int] is Some);
                if i < t - 1 {
                    assert(cs0[t - 1].visited);
                    assert(idx(ind0, cs0[i].node) < idx(ind0, cs0[t - 1].node));
                }
                assert(reaches(g, cs0[i].node, p));
                assert(g.edge(cs0[t - 1].node as int, cs0[t].node as int));
                lemma_edge_reaches(g, p, w);
                lemma_reaches_trans(g, cs0[i].node, p, w);
            }
        } else {
            assert(ind0[v as int] is Some);
            lemma_idx_below(s0, g, v);
            if i == t {
                assert(false);
            }
            assert(reaches(g, cs0[i].node, v));
        }
    }
}

/// Entering keeps what the stack nodes reach.
proof fn lemma_enter_up(g: &DirectedGraph, s0: &TarjanState, s1: &TarjanState, start_v: usize, base: int, start_order: Seq<usize>)
    requires
        s0.searching(g, start_v, base, start_order),
        s1.searching(g, start_v, base, start_order),
        enter_step(s0, s1),
        inv_up(s0, g),
        inv_low(s0, g),
    ensures
        inv_up(s1, g),
        inv_low(s1, g),
{
    reveal(inv_up);
    reveal(inv_low);
    lemma_enter_facts(g, s0, s1, start_v, base, start_order);
    let cs0 = s0.call_stack@;
    let cs1 = s1.call_stack@;
    let ind0 = s0.indices@;
    let ind1 = s1.indices@;
    let st0 = s0.stack@;
    let st1 = s1.stack@;
    let t = cs0.len() - 1;
    let w = cs0[t].node;
    assert forall|v: usize| #[trigger] st1.contains(v) implies exists|i: int| 0 <= i < entered(cs1)
        && idx(ind1, (#[trigger] cs1[i]).node) <= idx(ind1, v) && reaches(g, v, cs1[i].node) by {
        if v == w {
            lemma_reaches_self(g, w);
            assert(cs1[t].node == w);
        } else {
            assert(st0.contains(v));
            let i0 = choose|i: int| 0 <= i < entered(cs0) && idx(ind0, (#[trigger] cs0[i]).node) <= idx(ind0, v)
                && reaches(g, v, cs0[i].node);
            assert(cs1[i0].node == cs0[i0].node);
        }
    }
    assert forall|v: usize| #[trigger] st1.contains(v) implies exists|k: int| 0 <= k < st1.len()
        && idx(ind1, #[trigger] st1[k]) == s1.lowlink@[v as int] && reaches(g, v, st1[k]) by {
        if v == w {
            lemma_reaches_self(g, w);
            assert(st1[st0.len() as int] == w);
        } else {
            assert(st0.contains(v));
            let k0 = choose|k: int| 0 <= k < st0.len() && idx(ind0, #[trigger] st0[k]) == s0.lowlink@[v as int]
                && reaches(g, v, st0[k]);
            assert(st1[k0] == st0[k0]);
            assert(st0.contains(st0[k0]));
        }
    }
}

/// Entering keeps what is known of the neighbours looked at.
proof fn lemma_enter_looked(g: &DirectedGraph, s0: &TarjanState, s1: &TarjanState, start_v: usize, base: int, start_order: Seq<usize>)
    requires
        s0.searching(g, start_v, base, start_order),
        s1.searching(g, start_v, base, start_order),
        enter_step(s0, s1),
        inv_looked(s0, g),
        inv_owned(s0, g),
    ensures
        inv_looked(s1, g),
        inv_owned(s1, g),
{
    reveal(inv_looked);
    reveal(inv_owned);
    lemma_enter_facts(g, s0, s1, start_v, base, start_order);
    let cs0 = s0.call_stack@;
    let cs1 = s1.call_stack@;
    let ind0 = s0.indices@;
    let ind1 = s1.indices@;
    let low0 = s0.lowlink@;
    let low1 = s1.lowlink@;
    let st0 = s0.stack@;
    let st1 = s1.stack@;
    let t = cs0.len() - 1;
    let w = cs0[t].node;
    assert forall|i: int, k: int| 0 <= i < entered(cs1) && 0 <= k < (#[trigger] cs1[i]).neighbor_idx implies
        looked_at(s1, #[trigger] g.adj(cs1[i].node as int)[k], low1[cs1[i].node as int]) by {
        assert(cs0[t].neighbor_idx == 0);
        assert(i < t);
        let u = cs0[i].node;
        let d = g.adj(u as int)[k];
        assert(looked_at(s0, g.adj(cs0[i].node as int)[k], low0[cs0[i].node as int]));
        if d != w && st1.contains(d) {
            assert(st0.contains(d));
        }
    }
    assert forall|i: int, v: usize, d: usize| #![trigger owned_by(s1, i, v), g.edge(v as int, d as int)]
        owned_by(s1, i, v) && st1.contains(v) && g.edge(v as int, d as int) implies
        ind1[d as int] is Some && (st1.contains(d) ==> low1[cs1[i].node as int] <= idx(ind1, d)) by {
        if v == w {
            if i < t && i + 1 < t {
                assert(idx(ind1, cs1[i + 1].node) < s0.index);
            }
            assert(false);
        }
        assert(st0.contains(v));
        if i == t {
            assert(false);
        }
        assert(owned_by(s0, i, v));
        assert(ind0[d as int] is Some);
        assert(d != w);
        if st1.contains(d) {
            assert(st0.contains(d));
        }
    }
}

/// Entering the node of the top frame keeps the knowledge.
pub(super) proof fn lemma_enter_keeps(g: &DirectedGraph, s0: &TarjanState, s1: &TarjanState, start_v: usize, base: int, start_order: Seq<usize>)
    requires
        s0.searching(g, start_v, base, start_order),
        s1.searching(g, start_v, base, start_order),
        enter_step(s0, s1),
        reach_inv(s0, g),
    ensures
        reach_inv(s1, g),
{
    lemma_enter_down(g, s0, s1, start_v, base, start_order);
    lemma_enter_up(g, s0, s1, start_v, base, start_order);
    lemma_enter_looked(g, s0, s1, start_v, base, start_order);
    reveal(inv_closed);
    reveal(inv_comps);
    reveal(inv_order);
}

/// How looking at the next neighbour `w` of the top frame's node changes
/// the state.
pub(super) open spec fn advance_step(g: &DirectedGraph, s0: &TarjanState, s1: &TarjanState) -> bool {
    let cs0 = s0.call_stack@;
    let t = cs0.len() - 1;
    let v = cs0[t].node;
    let k = cs0[t].neighbor_idx;
    let w = g.adj(v as int)[k as int];
    let fr1 = TarjanFrame { node: v, neighbor_idx: (k + 1) as usize, visited: true };
    &&& cs0.len() > 0
    &&& cs0[t].visited
    &&& k < g.adj(v as int).len()
    &&& s1.indices@ == s0.indices@
    &&& s1.stack@ == s0.stack@
    &&& s1.sccs@ == s0.sccs@
    &&& if s0.indices@[w as int] is None {
        &&& s1.call_stack@ == cs0.update(t, fr1).push(TarjanFrame { node: w, neighbor_idx: 0, visited: false })
        &&& s1.lowlink@ == s0.lowlink@
    } else {
        &&& s1.call_stack@ == cs0.update(t, fr1)
        &&& s1.lowlink@ == if s0.stack@.contains(w) && idx(s0.indices@, w) < s0.lowlink@[v as int] {
            s0.lowlink@.update(v as int, idx(s0.indices@, w) as usize)
        } else {
            s0.lowlink@
        }
    }
}

/// Facts shared by the proofs about looking at a neighbour.
proof fn lemma_advance_facts(g: &DirectedGraph, s0: &TarjanState, s1: &TarjanState, start_v: usize, base: int, start_order: Seq<usize>)
    requires
        s0.searching(g, start_v, base, start_order),
        advance_step(g, s0, s1),
    ensures
        ({
            let cs0 = s0.call_stack@;
            let cs1 = s1.call_stack@;
            let t = cs0.len() - 1;
            let v = cs0[t].node;
            let k = cs0[t].neighbor_idx;
            let w = g.adj(v as int)[k as int];
            &&& top_fresh(cs0) == 0
            &&& entered(cs0) == t + 1
            &&& entered(cs1) == t + 1
            &&& w < g.n()
            &&& g.edge(v as int, w as int)
            &&& cs1.len() >= cs0.len()
            &&& forall|i: int| 0 <= i < cs0.len() ==> (#[trigger] cs1[i]).node == cs0[i].node
                && cs1[i].visited
            &&& forall|i: int| 0 <= i < t ==> (#[trigger] cs1[i]).neighbor_idx == cs0[i].neighbor_idx
                && cs0[i].node != v
            &&& cs1[t].neighbor_idx == k + 1
            &&& v < g.n()
            &&& s0.lowlink@.len() == g.n()
            &&& forall|u: usize| u != v && u < g.n() ==> #[trigger] s1.lowlink@[u as int] == s0.lowlink@[u as int]
            &&& forall|u: usize| u < g.n() ==> #[trigger] s1.lowlink@[u as int] <= s0.lowlink@[u as int]
            &&& s1.lowlink@.len() == s0.lowlink@.len()
            &&& s0.indices@[w as int] is None ==> top_fresh(cs1) == 1 && cs1.last().node == w && !s0.stack@.contains(w)
                && cs1.len() == t + 2
            &&& s0.indices@[w as int] is Some ==> top_fresh(cs1) == 0 && cs1.len() == t + 1
            &&& s1.lowlink@[v as int] != s0.lowlink@[v as int] ==> s0.stack@.contains(w)
                && s1.lowlink@[v as int] == idx(s0.indices@, w)
            &&& s0.stack@.contains(w) ==> s1.lowlink@[v as int] <= idx(s0.indices@, w)
        }),
{
    let cs0 = s0.call_stack@;
    let cs1 = s1.call_stack@;
    let t = cs0.len() - 1;
    let v = cs0[t].node;
    let k = cs0[t].neighbor_idx;
    let w = g.adj(v as int)[k as int];
    assert(g.adj(v as int).contains(w));
    assert(g.adjacency@[v as int].len() == g.adj(v as int).len());
    assert forall|i: int| 0 <= i < t implies (#[trigger] cs1[i]).neighbor_idx == cs0[i].neighbor_idx
        && cs0[i].node != v by {
        assert(cs0[i].visited);
        assert(idx(s0.indices@, cs0[i].node) < idx(s0.indices@, cs0[t].node));
    }
    if s0.indices@[w as int] is None {
        assert(!s0.stack@.contains(w)) by {
            if s0.stack@.contains(w) {
                let j = choose|j: int| 0 <= j < s0.stack@.len() && s0.stack@[j] == w;
                assert(s0.indices@[s0.stack@[j] as int] is Some);
            }
        }
    }
}

/// Looking at a neighbour keeps the knowledge.
pub(super) proof fn lemma_advance_keeps(g: &DirectedGraph, s0: &TarjanState, s1: &TarjanState, start_v: usize, base: int, start_order: Seq<usize>)
    requires
        s0.searching(g, start_v, base, start_order),
        advance_step(g, s0, s1),
        reach_inv(s0, g),
    ensures
        reach_inv(s1, g),
{
    lemma_advance_facts(g, s0, s1, start_v, base, start_order);
    lemma_advance_tree(g, s0, s1, start_v, base, start_order);
    lemma_advance_low(g, s0, s1, start_v, base, start_order);
    lemma_advance_looked(g, s0, s1, start_v, base, start_order);
    reveal(inv_closed);
    reveal(inv_comps);
    reveal(inv_order);
}

/// Looking at a neighbour keeps the tree edges, and what frames and stack
/// nodes reach.
proof fn lemma_advance_tree(g: &DirectedGraph, s0: &TarjanState, s1: &TarjanState, start_v: usize, base: int, start_order: Seq<usize>)
    requires
        s0.searching(g, start_v, base, start_order),
        advance_step(g, s0, s1),
        inv_tree(s0, g),
        inv_down(s0, g),
        inv_up(s0, g),
    ensures
        inv_tree(s1, g),
        inv_down(s1, g),
        inv_up(s1, g),
{
    reveal(inv_tree);
    reveal(inv_down);
    reveal(inv_up);
    lemma_advance_facts(g, s0, s1, start_v, base, start_order);
    let cs0 = s0.call_stack@;
    let cs1 = s1.call_stack@;
    let t = cs0.len() - 1;
    assert forall|i: int| 0 < i < cs1.len() implies g.edge(cs1[i - 1].node as int, (#[trigger] cs1[i]).node as int) by {
        if i < cs0.len() {
            assert(g.edge(cs0[i - 1].node as int, cs0[i].node as int));
        }
    }
    let ind = s0.indices@;
    assert forall|i: int, v: usize| 0 <= i < entered(cs1) && v < g.n() && (#[trigger] ind[v as int]) is Some
        && idx(ind, v) >= idx(ind, (#[trigger] cs1[i]).node) implies reaches(g, cs1[i].node, v) by {
        assert(reaches(g, cs0[i].node, v));
    }
    assert forall|v: usize| #[trigger] s1.stack@.contains(v) implies exists|i: int| 0 <= i < entered(cs1)
        && idx(ind, (#[trigger] cs1[i]).node) <= idx(ind, v) && reaches(g, v, cs1[i].node) by {
        let i0 = choose|i: int| 0 <= i < entered(cs0) && idx(ind, (#[trigger] cs0[i]).node) <= idx(ind, v)
            && reaches(g, v, cs0[i].node);
        assert(cs1[i0].node == cs0[i0].node);
    }
}

/// Looking at a neighbour keeps what the low links point at.
proof fn lemma_advance_low(g: &DirectedGraph, s0: &TarjanState, s1: &TarjanState, start_v: usize, base: int, start_order: Seq<usize>)
    requires
        s0.searching(g, start_v, base, start_order),
        advance_step(g, s0, s1),
        inv_low(s0, g),
    ensures
        inv_low(s1, g),
{
    reveal(inv_low);
    lemma_advance_facts(g, s0, s1, start_v, base, start_order);
    let cs0 = s0.call_stack@;
    let t = cs0.len() - 1;
    let v = cs0[t].node;
    let w = g.adj(v as int)[cs0[t].neighbor_idx as int];
    let stack = s0.stack@;
    let ind = s0.indices@;
    assert forall|u: usize| #[trigger] stack.contains(u) implies exists|k: int| 0 <= k < stack.len()
        && idx(ind, #[trigger] stack[k]) == s1.lowlink@[u as int] && reaches(g, u, stack[k]) by {
        if u == v && s1.lowlink@[v as int] != s0.lowlink@[v as int] {
            let j = choose|j: int| 0 <= j < stack.len() && stack[j] == w;
            lemma_edge_reaches(g, v, w);
            assert(idx(ind, stack[j]) == s1.lowlink@[u as int]);
        } else {
            let j = choose|k: int| 0 <= k < stack.len()
                && idx(ind, #[trigger] stack[k]) == s0.lowlink@[u as int] && reaches(g, u, stack[k]);
            assert(idx(ind, stack[j]) == s1.lowlink@[u as int]);
        }
    }
}

/// Looking at a neighbour keeps what is known of the neighbours looked at.
proof fn lemma_advance_looked(g: &DirectedGraph, s0: &TarjanState, s1: &TarjanState, start_v: usize, base: int, start_order: Seq<usize>)
    requires
        s0.searching(g, start_v, base, start_order),
        advance_step(g, s0, s1),
        inv_looked(s0, g),
        inv_owned(s0, g),
    ensures
        inv_looked(s1, g),
        inv_owned(s1, g),
{
    reveal(inv_looked);
    reveal(inv_owned);
    lemma_advance_facts(g, s0, s1, start_v, base, start_order);
    let cs0 = s0.call_stack@;
    let cs1 = s1.call_stack@;
    let t = cs0.len() - 1;
    let v = cs0[t].node;
    let kk = cs0[t].neighbor_idx;
    let w = g.adj(v as int)[kk as int];
    let ind = s0.indices@;
    assert forall|i: int, k: int| 0 <= i < entered(cs1) && 0 <= k < (#[trigger] cs1[i]).neighbor_idx implies
        looked_at(s1, #[trigger] g.adj(cs1[i].node as int)[k], s1.lowlink@[cs1[i].node as int]) by {
        let u = cs0[i].node;
        if i == t && k == kk {
        } else {
            assert(looked_at(s0, g.adj(cs0[i].node as int)[k], s0.lowlink@[u as int]));
        }
    }
    assert forall|i: int, x: usize, d: usize| #![trigger owned_by(s1, i, x), g.edge(x as int, d as int)]
        owned_by(s1, i, x) && s1.stack@.contains(x) && g.edge(x as int, d as int) implies
        ind[d as int] is Some && (s1.stack@.contains(d) ==> s1.lowlink@[cs1[i].node as int] <= idx(ind, d)) by {
        if i + 1 < entered(cs1) {
            assert(cs1[i + 1].node == cs0[i + 1].node);
        }
        assert(owned_by(s0, i, x));
    }
}

/// The node of the top frame closes a component: its low link is its own
/// index.
pub(super) open spec fn closes_root(s0: &TarjanState) -> bool {
    let v = s0.call_stack@.last().node;
    s0.lowlink@[v as int] == idx(s0.indices@, v)
}

/// How finishing the top frame changes the state; `pos` is where the node of
/// the top frame stands on the stack when it closes a component.
pub(super) open spec fn finish_step(g: &DirectedGraph, s0: &TarjanState, s1: &TarjanState, pos: int) -> bool {
    let cs0 = s0.call_stack@;
    let t = cs0.len() - 1;
    let v = cs0[t].node;
    let st = s0.stack@;
    &&& cs0.len() > 0
    &&& cs0[t].visited
    &&& cs0[t].neighbor_idx == g.adj(v as int).len()
    &&& s1.indices@ == s0.indices@
    &&& s1.call_stack@ == cs0.drop_last()
    &&& s1.lowlink@ == if t > 0 && s0.lowlink@[v as int] < s0.lowlink@[cs0[t - 1].node as int] {
        s0.lowlink@.update(cs0[t - 1].node as int, s0.lowlink@[v as int])
    } else {
        s0.lowlink@
    }
    &&& if closes_root(s0) {
        &&& 0 <= pos < st.len()
        &&& st[pos] == v
        &&& s1.stack@ == st.subrange(0, pos)
        &&& s1.sccs@ == s0.sccs@.push(s1.sccs@.last())
        &&& s1.sccs@.last()@.len() == st.len() - pos
        &&& forall|k: int| 0 <= k < s1.sccs@.last()@.len() ==> #[trigger] s1.sccs@.last()@[k] == st[st.len() - 1 - k]
    } else {
        &&& s1.stack@ == st
        &&& s1.sccs@ == s0.sccs@
    }
}

/// The frames, and the stack nodes that stay, before and after finishing
/// the top frame.
spec fn ff_frames(g: &DirectedGraph, s0: &TarjanState, s1: &TarjanState) -> bool {
    let n = g.n();
    let cs0 = s0.call_stack@;
    let cs1 = s1.call_stack@;
    let t = cs0.len() - 1;
    let v = cs0[t].node;
    let p = cs0[t - 1].node;
    let ind = s0.indices@;
    let low0 = s0.lowlink@;
    let low1 = s1.lowlink@;
    let st = s0.stack@;
    let out0 = flat(views(s0.sccs@));
    let out1 = flat(views(s1.sccs@));
    &&& top_fresh(cs0) == 0
    &&& entered(cs0) == t + 1
    &&& top_fresh(cs1) == 0
    &&& entered(cs1) == t
    &&& cs1.len() == t
    &&& forall|i: int| 0 <= i < t ==> #[trigger] cs1[i] == cs0[i]
    &&& v < n
    &&& ind[v as int] is Some
    &&& st.contains(v)
    &&& low0[v as int] <= idx(ind, v)
    &&& forall|i: int| 0 <= i < t ==> (#[trigger] cs0[i]).visited && ind[cs0[i].node as int] is Some
        && idx(ind, cs0[i].node) < idx(ind, v) && st.contains(cs0[i].node) && cs0[i].node < n
    &&& closes_root(s0) ==> forall|x: usize| #[trigger] s1.stack@.contains(x) <==> st.contains(x) && idx(ind, x) < idx(ind, v)
    &&& !closes_root(s0) ==> s1.stack@ == st && s1.sccs@ == s0.sccs@ && low0[v as int] < idx(ind, v)
}

/// The stack nodes and the low links before and after finishing the top frame.
spec fn ff_stack(g: &DirectedGraph, s0: &TarjanState, s1: &TarjanState, base: int) -> bool {
    let n = g.n();
    let cs0 = s0.call_stack@;
    let cs1 = s1.call_stack@;
    let t = cs0.len() - 1;
    let v = cs0[t].node;
    let p = cs0[t - 1].node;
    let ind = s0.indices@;
    let low0 = s0.lowlink@;
    let low1 = s1.lowlink@;
    let st = s0.stack@;
    let out0 = flat(views(s0.sccs@));
    let out1 = flat(views(s1.sccs@));
    &&& forall|x: usize| #[trigger] st.contains(x) ==> x < n && ind[x as int] is Some && idx(ind, x) >= base
        && low0[x as int] <= idx(ind, x)
    &&& forall|x: usize, y: usize| #[trigger] st.contains(x) && #[trigger] st.contains(y) && idx(ind, x) == idx(ind, y) ==> x == y
    &&& forall|u: usize| u < n && (t == 0 || u != p) ==> #[trigger] low1[u as int] == low0[u as int]
    &&& forall|u: usize| u < n ==> #[trigger] low1[u as int] <= low0[u as int]
    &&& t > 0 ==> low1[p as int] <= low0[v as int]
    &&& t > 0 && low1[p as int] != low0[p as int] ==> low1[p as int] == low0[v as int] && !closes_root(s0)
}

/// The components found before and after finishing the top frame.
spec fn ff_out(g: &DirectedGraph, s0: &TarjanState, s1: &TarjanState) -> bool {
    let n = g.n();
    let cs0 = s0.call_stack@;
    let cs1 = s1.call_stack@;
    let t = cs0.len() - 1;
    let v = cs0[t].node;
    let p = cs0[t - 1].node;
    let ind = s0.indices@;
    let low0 = s0.lowlink@;
    let low1 = s1.lowlink@;
    let st = s0.stack@;
    let out0 = flat(views(s0.sccs@));
    let out1 = flat(views(s1.sccs@));
    &&& forall|x: usize| #[trigger] out0.contains(x) ==> !st.contains(x)
    &&& forall|x: usize| x < n && #[trigger] ind[x as int] is Some ==> out0.contains(x) || st.contains(x)
    &&& closes_root(s0) ==> {
        &&& forall|x: usize| #[trigger] s1.sccs@.last()@.contains(x) <==> st.contains(x) && idx(ind, x) >= idx(ind, v)
        &&& forall|x: usize| #[trigger] out1.contains(x) <==> out0.contains(x) || s1.sccs@.last()@.contains(x)
        &&& s1.sccs@.len() == s0.sccs@.len() + 1
        &&& forall|c: int| 0 <= c < s0.sccs@.len() ==> #[trigger] s1.sccs@[c] == s0.sccs@[c]
    }
}

/// What holds of the states before and after finishing the top frame.
spec fn finish_facts(g: &DirectedGraph, s0: &TarjanState, s1: &TarjanState, base: int) -> bool {
    &&& ff_frames(g, s0, s1)
    &&& ff_stack(g, s0, s1, base)
    &&& ff_out(g, s0, s1)
}

/// Facts shared by the proofs about finishing the top frame.
#[verifier::rlimit(30)]
proof fn lemma_finish_facts(g: &DirectedGraph, s0: &TarjanState, s1: &TarjanState, pos: int, start_v: usize, base: int, start_order: Seq<usize>)
    requires
        s0.searching(g, start_v, base, start_order),
        finish_step(g, s0, s1, pos),
    ensures
        finish_facts(g, s0, s1, base),
{
    let n = g.n();
    let cs0 = s0.call_stack@;
    let cs1 = s1.call_stack@;
    let t = cs0.len() - 1;
    let v = cs0[t].node;
    let p = cs0[t - 1].node;
    let ind = s0.indices@;
    let low0 = s0.lowlink@;
    let low1 = s1.lowlink@;
    let st = s0.stack@;
    let out0 = flat(views(s0.sccs@));
    let out1 = flat(views(s1.sccs@));
    assert(cs0[t] == cs0.last());
    assert(st.contains(v)) by {
        assert(s0.on_stack@[v as int]);
    }
    assert forall|x: usize| #[trigger] st.contains(x) implies x < n && ind[x as int] is Some && idx(ind, x) >= base
        && low0[x as int] <= idx(ind, x) by {
        let j = choose|j: int| 0 <= j < st.len() && st[j] == x;
        assert(ind[st[j] as int] is Some);
    }
    assert forall|x: usize, y: usize| #[trigger] st.contains(x) && #[trigger] st.contains(y) && idx(ind, x) == idx(ind, y)
        implies x == y by {
        lemma_idx_inj(s0, g, x, y);
    }
    assert forall|i: int| 0 <= i < t implies (#[trigger] cs0[i]).visited && ind[cs0[i].node as int] is Some
        && idx(ind, cs0[i].node) < idx(ind, v) && st.contains(cs0[i].node) && cs0[i].node < n by {
        assert(cs0[i].visited);
        assert(s0.on_stack@[cs0[i].node as int]);
    }
    if t > 0 {
        assert(idx(ind, p) < idx(ind, v));
        assert(st.contains(p));
    }
    assert forall|x: usize| #[trigger] out0.contains(x) implies !st.contains(x) by {
        if st.contains(x) {
            let i = choose|i: int| 0 <= i < out0.len() && out0[i] == x;
            let j = choose|j: int| 0 <= j < st.len() && st[j] == x;
            assert((out0 + st)[i] == x);
            assert((out0 + st)[out0.len() + j] == x);
        }
    }
    assert forall|x: usize| x < n && #[trigger] ind[x as int] is Some implies out0.contains(x) || st.contains(x) by {
        assert(s0.order@.contains(x));
        lemma_concat_contains(out0, st, x);
    }
    if closes_root(s0) {
        let c = s1.sccs@.last()@;
        assert forall|a: int, b: int| 0 <= a < b < st.len() implies idx(ind, st[a]) < idx(ind, st[b]) by {}
        assert forall|x: usize| #[trigger] s1.stack@.contains(x) <==> st.contains(x) && idx(ind, x) < idx(ind, v) by {
            if s1.stack@.contains(x) {
                let j = choose|j: int| 0 <= j < s1.stack@.len() && s1.stack@[j] == x;
                assert(st[j] == x);
                assert(idx(ind, st[j]) < idx(ind, st[pos]));
            }
            if st.contains(x) && idx(ind, x) < idx(ind, v) {
                let j = choose|j: int| 0 <= j < st.len() && st[j] == x;
                if j >= pos {
                    if j > pos {
                        assert(idx(ind, st[pos]) < idx(ind, st[j]));
                    }
                    assert(false);
                }
                assert(s1.stack@[j] == x);
            }
        }
        assert forall|x: usize| #[trigger] c.contains(x) <==> st.contains(x) && idx(ind, x) >= idx(ind, v) by {
            if c.contains(x) {
                let k = choose|k: int| 0 <= k < c.len() && c[k] == x;
                let j = st.len() - 1 - k;
                assert(st[j] == x);
                if j > pos {
                    assert(idx(ind, st[pos]) < idx(ind, st[j]));
                }
            }
            if st.contains(x) && idx(ind, x) >= idx(ind, v) {
                let j = choose|j: int| 0 <= j < st.len() && st[j] == x;
                if j < pos {
                    assert(idx(ind, st[j]) < idx(ind, st[pos]));
                }
                assert(c[st.len() - 1 - j] == x);
            }
        }
        assert(views(s1.sccs@) =~= views(s0.sccs@).push(c));
        assert(views(s1.sccs@).drop_last() =~= views(s0.sccs@));
        assert(out1 =~= out0 + c);
        assert forall|x: usize| #[trigger] out1.contains(x) <==> out0.contains(x) || c.contains(x) by {
            lemma_concat_contains(out0, c, x);
        }
        assert forall|k: int| 0 <= k < s0.sccs@.len() implies #[trigger] s1.sccs@[k] == s0.sccs@[k] by {
            assert(s1.sccs@ == s0.sccs@.push(s1.sccs@.last()));
        }
    }
}

/// Finishing keeps the tree edges and what frames reach.
proof fn lemma_finish_down(g: &DirectedGraph, s0: &TarjanState, s1: &TarjanState, pos: int, base: int)
    requires
        finish_step(g, s0, s1, pos),
        ff_frames(g, s0, s1),
        inv_tree(s0, g),
        inv_down(s0, g),
    ensures
        inv_tree(s1, g),
        inv_down(s1, g),
{
    reveal(inv_tree);
    reveal(inv_down);
    let n = g.n();
    let cs0 = s0.call_stack@;
    let cs1 = s1.call_stack@;
    let ind = s0.indices@;
    assert forall|i: int| 0 < i < cs1.len() implies g.edge(cs1[i - 1].node as int, (#[trigger] cs1[i]).node as int) by {
        assert(g.edge(cs0[i - 1].node as int, cs0[i].node as int));
    }
    assert forall|i: int, x: usize| 0 <= i < entered(cs1) && x < n && (#[trigger] ind[x as int]) is Some
        && idx(ind, x) >= idx(ind, (#[trigger] cs1[i]).node) implies reaches(g, cs1[i].node, x) by {
        assert(reaches(g, cs0[i].node, x));
    }
}

/// Finishing keeps what the stack nodes reach.
proof fn lemma_finish_up(g: &DirectedGraph, s0: &TarjanState, s1: &TarjanState, pos: int, base: int)
    requires
        finish_step(g, s0, s1, pos),
        ff_frames(g, s0, s1),
        inv_up(s0, g),
        inv_low(s0, g),
    ensures
        inv_up(s1, g),
{
    reveal(inv_up);
    reveal(inv_low);
    let cs0 = s0.call_stack@;
    let cs1 = s1.call_stack@;
    let t = cs0.len() - 1;
    let v = cs0[t].node;
    let ind = s0.indices@;
    let low0 = s0.lowlink@;
    let st = s0.stack@;
    let st1 = s1.stack@;
    let kv = choose|k: int| 0 <= k < st.len() && idx(ind, #[trigger] st[k]) == low0[v as int] && reaches(g, v, st[k]);
    assert(st.contains(v));
    assert(0 <= kv < st.len() && idx(ind, st[kv]) == low0[v as int] && reaches(g, v, st[kv]));
    assert(st.contains(st[kv]));
    assert forall|x: usize| #[trigger] st1.contains(x) implies exists|i: int| 0 <= i < entered(cs1)
        && idx(ind, (#[trigger] cs1[i]).node) <= idx(ind, x) && reaches(g, x, cs1[i].node) by {
        assert(st.contains(x));
        let i0 = choose|i: int| 0 <= i < entered(cs0) && idx(ind, (#[trigger] cs0[i]).node) <= idx(ind, x)
            && reaches(g, x, cs0[i].node);
        if i0 < t {
            assert(cs1[i0] == cs0[i0]);
        } else {
            assert(!closes_root(s0));
            let w = st[kv];
            let j = choose|i: int| 0 <= i < entered(cs0) && idx(ind, (#[trigger] cs0[i]).node) <= idx(ind, w)
                && reaches(g, w, cs0[i].node);
            assert(j < t);
            lemma_reaches_trans(g, x, v, w);
            lemma_reaches_trans(g, x, w, cs0[j].node);
            assert(cs1[j] == cs0[j]);
        }
    }
}

/// Finishing keeps what the low links point at.
proof fn lemma_finish_low(g: &DirectedGraph, s0: &TarjanState, s1: &TarjanState, pos: int, base: int)
    requires
        finish_step(g, s0, s1, pos),
        ff_frames(g, s0, s1),
        ff_stack(g, s0, s1, base),
        inv_tree(s0, g),
        inv_low(s0, g),
    ensures
        inv_low(s1, g),
{
    reveal(inv_tree);
    reveal(inv_low);
    let cs0 = s0.call_stack@;
    let t = cs0.len() - 1;
    let v = cs0[t].node;
    let p = cs0[t - 1].node;
    let ind = s0.indices@;
    let low0 = s0.lowlink@;
    let low1 = s1.lowlink@;
    let st = s0.stack@;
    let st1 = s1.stack@;
    let kv = choose|k: int| 0 <= k < st.len() && idx(ind, #[trigger] st[k]) == low0[v as int] && reaches(g, v, st[k]);
    assert(st.contains(v));
    assert(0 <= kv < st.len() && idx(ind, st[kv]) == low0[v as int] && reaches(g, v, st[kv]));
    assert forall|x: usize| #[trigger] st1.contains(x) implies exists|k: int| 0 <= k < st1.len()
        && idx(ind, #[trigger] st1[k]) == low1[x as int] && reaches(g, x, st1[k]) by {
        assert(st.contains(x));
        if t > 0 && x == p && low1[p as int] != low0[p as int] {
            assert(g.edge(cs0[t - 1].node as int, cs0[t].node as int));
            lemma_edge_reaches(g, p, v);
            lemma_reaches_trans(g, p, v, st[kv]);
            assert(st1[kv] == st[kv]);
        } else {
            let k0 = choose|k: int| 0 <= k < st.len() && idx(ind, #[trigger] st[k]) == low0[x as int]
                && reaches(g, x, st[k]);
            assert(st.contains(st[k0]));
            if closes_root(s0) {
                assert(st1.contains(st[k0]));
                let k1 = choose|k: int| 0 <= k < st1.len() && st1[k] == st[k0];
                assert(idx(ind, st1[k1]) == low1[x as int]);
            } else {
                assert(idx(ind, st1[k0]) == low1[x as int]);
            }
        }
    }
}

/// Two entered nodes with the same index are the same node.
proof fn lemma_idx_inj(st: &TarjanState, g: &DirectedGraph, a: usize, b: usize)
    requires
        st.settled(g),
        a < g.n(),
        b < g.n(),
        st.indices@[a as int] is Some,
        st.indices@[b as int] is Some,
        idx(st.indices@, a) == idx(st.indices@, b),
    ensures
        a == b,
{
    let order = st.order@;
    assert(order.contains(a));
    assert(order.contains(b));
    let ka = choose|k: int| 0 <= k < order.len() && order[k] == a;
    let kb = choose|k: int| 0 <= k < order.len() && order[k] == b;
    assert(st.indices@[order[ka] as int] == Some(ka as usize));
    assert(st.indices@[order[kb] as int] == Some(kb as usize));
}

/// Finishing keeps what is known of the neighbours looked at.
proof fn lemma_finish_looked(g: &DirectedGraph, s0: &TarjanState, s1: &TarjanState, pos: int, base: int)
    requires
        finish_step(g, s0, s1, pos),
        ff_frames(g, s0, s1),
        ff_stack(g, s0, s1, base),
        inv_looked(s0, g),
    ensures
        inv_looked(s1, g),
{
    reveal(inv_looked);
    let cs0 = s0.call_stack@;
    let cs1 = s1.call_stack@;
    let st = s0.stack@;
    assert forall|i: int, k: int| 0 <= i < entered(cs1) && 0 <= k < (#[trigger] cs1[i]).neighbor_idx implies
        looked_at(s1, #[trigger] g.adj(cs1[i].node as int)[k], s1.lowlink@[cs1[i].node as int]) by {
        assert(cs1[i] == cs0[i]);
        let d = g.adj(cs0[i].node as int)[k];
        assert(looked_at(s0, g.adj(cs0[i].node as int)[k], s0.lowlink@[cs0[i].node as int]));
        if s1.stack@.contains(d) {
            assert(st.contains(d));
        }
    }
}

/// Finishing keeps what is known of the finished nodes on the stack.
#[verifier::rlimit(20)]
proof fn lemma_finish_owned(g: &DirectedGraph, s0: &TarjanState, s1: &TarjanState, pos: int, base: int)
    requires
        finish_step(g, s0, s1, pos),
        ff_frames(g, s0, s1),
        ff_stack(g, s0, s1, base),
        inv_looked(s0, g),
        inv_owned(s0, g),
    ensures
        inv_owned(s1, g),
{
    reveal(inv_looked);
    reveal(inv_owned);
    let cs0 = s0.call_stack@;
    let cs1 = s1.call_stack@;
    let t = cs0.len() - 1;
    let v = cs0[t].node;
    let ind = s0.indices@;
    let st = s0.stack@;
    let st1 = s1.stack@;
    assert forall|i: int, x: usize, d: usize| #![trigger owned_by(s1, i, x), g.edge(x as int, d as int)]
        owned_by(s1, i, x) && st1.contains(x) && g.edge(x as int, d as int) implies
        ind[d as int] is Some && (st1.contains(d) ==> s1.lowlink@[cs1[i].node as int] <= idx(ind, d)) by {
        assert(st.contains(x));
        assert(cs1[i] == cs0[i]);
        if i + 1 < t {
            assert(cs1[i + 1] == cs0[i + 1]);
            assert(owned_by(s0, i, x));
        } else if idx(ind, x) < idx(ind, v) {
            assert(owned_by(s0, i, x));
        } else if idx(ind, x) == idx(ind, v) {
            assert(x == v);
            assert(!closes_root(s0));
            assert(g.adj(v as int).contains(d));
            let k = choose|k: int| 0 <= k < g.adj(v as int).len() && g.adj(v as int)[k] == d;
            assert(looked_at(s0, g.adj(cs0[t].node as int)[k], s0.lowlink@[cs0[t].node as int]));
        } else {
            assert(!closes_root(s0));
            assert(owned_by(s0, t, x));
        }
        if st1.contains(d) {
            assert(st.contains(d));
        }
    }
}

/// Finishing keeps the components found closed under edges.
#[verifier::rlimit(20)]
proof fn lemma_finish_closed(g: &DirectedGraph, s0: &TarjanState, s1: &TarjanState, pos: int, base: int)
    requires
        finish_step(g, s0, s1, pos),
        ff_frames(g, s0, s1),
        ff_stack(g, s0, s1, base),
        ff_out(g, s0, s1),
        inv_closed(s0, g),
        inv_looked(s0, g),
        inv_owned(s0, g),
    ensures
        inv_closed(s1, g),
{
    reveal(inv_closed);
    reveal(inv_looked);
    reveal(inv_owned);
    let cs0 = s0.call_stack@;
    let t = cs0.len() - 1;
    let v = cs0[t].node;
    let ind = s0.indices@;
    let st = s0.stack@;
    let out0 = flat(views(s0.sccs@));
    let out1 = flat(views(s1.sccs@));
    if closes_root(s0) {
        let c = s1.sccs@.last()@;
        assert forall|x: usize, y: usize| out1.contains(x) && #[trigger] g.edge(x as int, y as int) implies out1.contains(y) by {
            if out0.contains(x) {
                assert(out0.contains(y));
            } else {
                assert(c.contains(x));
                assert(st.contains(x));
                if idx(ind, x) == idx(ind, v) {
                    assert(x == v);
                    assert(g.adj(v as int).contains(y));
                    let k = choose|k: int| 0 <= k < g.adj(v as int).len() && g.adj(v as int)[k] == y;
                    assert(looked_at(s0, g.adj(cs0[t].node as int)[k], s0.lowlink@[cs0[t].node as int]));
                } else {
                    assert(owned_by(s0, t, x));
                }
                assert(ind[y as int] is Some);
                if st.contains(y) {
                    assert(c.contains(y));
                } else {
                    assert(out0.contains(y));
                }
            }
        }
    }
}

/// Finishing keeps every component found a strongly connected component.
#[verifier::rlimit(20)]
proof fn lemma_finish_comps(g: &DirectedGraph, s0: &TarjanState, s1: &TarjanState, pos: int, base: int)
    requires
        finish_step(g, s0, s1, pos),
        ff_frames(g, s0, s1),
        ff_stack(g, s0, s1, base),
        ff_out(g, s0, s1),
        inv_closed(s0, g),
        inv_closed(s1, g),
        inv_down(s0, g),
        inv_up(s0, g),
        inv_comps(s0, g),
    ensures
        inv_comps(s1, g),
{
    reveal(inv_comps);
    if closes_root(s0) {
        let c = s1.sccs@.last()@;
        let len0 = s0.sccs@.len();
        lemma_root_component(g, s0, s1, pos, base);
        assert forall|k: int| 0 <= k < s1.sccs@.len() implies is_component(g, #[trigger] s1.sccs@[k]@) by {
            if k < len0 {
                assert(s1.sccs@[k] == s0.sccs@[k]);
            } else {
                assert(s1.sccs@[k] == s1.sccs@.last());
            }
        }
    }
}

/// The component closed by a root is a strongly connected component.
#[verifier::rlimit(20)]
proof fn lemma_root_component(g: &DirectedGraph, s0: &TarjanState, s1: &TarjanState, pos: int, base: int)
    requires
        finish_step(g, s0, s1, pos),
        ff_frames(g, s0, s1),
        ff_stack(g, s0, s1, base),
        ff_out(g, s0, s1),
        inv_closed(s0, g),
        inv_closed(s1, g),
        inv_down(s0, g),
        inv_up(s0, g),
        closes_root(s0),
    ensures
        is_component(g, s1.sccs@.last()@),
{
    reveal(inv_closed);
    reveal(inv_down);
    reveal(inv_up);
    let cs0 = s0.call_stack@;
    let t = cs0.len() - 1;
    let v = cs0[t].node;
    let ind = s0.indices@;
    let st = s0.stack@;
    let out0 = flat(views(s0.sccs@));
    let out1 = flat(views(s1.sccs@));
    let c = s1.sccs@.last()@;
    let inside1 = |a: usize| out1.contains(a);
    let inside0 = |a: usize| out0.contains(a);
    assert forall|a: usize, b: usize| inside1(a) && #[trigger] g.edge(a as int, b as int) implies inside1(b) by {}
    assert forall|a: usize, b: usize| inside0(a) && #[trigger] g.edge(a as int, b as int) implies inside0(b) by {}
    // every member reaches the root
    assert forall|y: usize| c.contains(y) implies #[trigger] reaches(g, y, v) by {
        assert(st.contains(y));
        let j = choose|i: int| 0 <= i < entered(cs0) && idx(ind, (#[trigger] cs0[i]).node) <= idx(ind, y)
            && reaches(g, y, cs0[i].node);
        let q = cs0[j].node;
        assert(out1.contains(y));
        lemma_closed_reach(g, inside1, y, q);
        if j < t {
            assert(st.contains(q));
            assert(!out0.contains(q));
            assert(c.contains(q));
            assert(false);
        }
    }
    assert forall|i: int, j: int| 0 <= i < c.len() && 0 <= j < c.len() implies
        reaches(g, #[trigger] c[i], #[trigger] c[j]) by {
        assert(c.contains(c[i]));
        assert(c.contains(c[j]));
        assert(st.contains(c[j]));
        assert(reaches(g, cs0[t].node, c[j]));
        lemma_reaches_trans(g, c[i], v, c[j]);
    }
    assert forall|i: int, z: usize| 0 <= i < c.len() && #[trigger] reaches(g, c[i], z) && reaches(g, z, c[i])
        implies c.contains(z) by {
        let y = c[i];
        assert(c.contains(y));
        assert(out1.contains(y));
        lemma_closed_reach(g, inside1, y, z);
        if out0.contains(z) {
            lemma_closed_reach(g, inside0, z, y);
            assert(st.contains(y));
            assert(false);
        }
    }
}

/// Finishing the top frame keeps the knowledge.
pub(super) proof fn lemma_finish_keeps(g: &DirectedGraph, s0: &TarjanState, s1: &TarjanState, pos: int, start_v: usize, base: int, start_order: Seq<usize>)
    requires
        s0.searching(g, start_v, base, start_order),
        finish_step(g, s0, s1, pos),
        reach_inv(s0, g),
    ensures
        reach_inv(s1, g),
{
    lemma_finish_facts(g, s0, s1, pos, start_v, base, start_order);
    lemma_finish_down(g, s0, s1, pos, base);
    lemma_finish_up(g, s0, s1, pos, base);
    lemma_finish_low(g, s0, s1, pos, base);
    lemma_finish_looked(g, s0, s1, pos, base);
    lemma_finish_owned(g, s0, s1, pos, base);
    lemma_finish_closed(g, s0, s1, pos, base);
    lemma_finish_comps(g, s0, s1, pos, base);
    lemma_finish_order(g, s0, s1, pos, base);
}

/// Finishing keeps the edges leaving a component pointing backwards.
#[verifier::rlimit(20)]
proof fn lemma_finish_order(g: &DirectedGraph, s0: &TarjanState, s1: &TarjanState, pos: int, base: int)
    requires
        finish_step(g, s0, s1, pos),
        ff_frames(g, s0, s1),
        ff_out(g, s0, s1),
        inv_closed(s1, g),
        inv_order(s0, g),
    ensures
        inv_order(s1, g),
{
    reveal(inv_order);
    reveal(inv_closed);
    if closes_root(s0) {
        let len0 = s0.sccs@.len();
        let out0 = flat(views(s0.sccs@));
        let out1 = flat(views(s1.sccs@));
        assert forall|c: int, i: int, y: usize| 0 <= c < s1.sccs@.len() && 0 <= i < s1.sccs@[c]@.len()
            && #[trigger] g.edge(s1.sccs@[c]@[i] as int, y as int) implies
            exists|c2: int| 0 <= c2 <= c && #[trigger] s1.sccs@[c2]@.contains(y) by {
            if c < len0 {
                assert(s1.sccs@[c] == s0.sccs@[c]);
                let c2 = choose|c2: int| 0 <= c2 <= c && #[trigger] s0.sccs@[c2]@.contains(y);
                assert(s1.sccs@[c2] == s0.sccs@[c2]);
            } else {
                let x = s1.sccs@[c]@[i];
                assert(s1.sccs@[c] == s1.sccs@.last());
                assert(s1.sccs@.last()@.contains(x));
                assert(out1.contains(x));
                assert(out1.contains(y));
                if out0.contains(y) {
                    let c2 = lemma_flat_member(views(s0.sccs@), y);
                    assert(views(s0.sccs@)[c2] == s0.sccs@[c2]@);
                    assert(s1.sccs@[c2] == s0.sccs@[c2]);
                    assert(s1.sccs@[c2]@.contains(y));
                } else {
                    assert(s1.sccs@[c]@.contains(y));
                }
            }
        }
    }
}

} // verus!
