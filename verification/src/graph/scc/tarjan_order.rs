//! The order in which Tarjan's search enters the nodes, and the order of the
//! nodes inside each component it closes.

use vstd::prelude::*;

use super::{idx, top_fresh, TarjanFrame, TarjanState};
use super::tarjan_inv::{advance_step, closes_root, enter_step, finish_step};
use crate::graph::depth_first::{
    descends, discovery_entry, entered_from, entry_source, finishes_before, first_unlisted, has_unlisted,
    lemma_descends_extend, lemma_entered_from_source, lemma_entered_from_start, lemma_unlisted_grow, walk_done,
};
use crate::model::DirectedGraph;

verus! {

/// `v` is the node of an entered frame.
pub(super) open spec fn on_frames(cs: Seq<TarjanFrame>, v: usize) -> bool {
    exists|i: int| 0 <= i < cs.len() && (#[trigger] cs[i]).visited && cs[i].node == v
}

/// What the search keeps of the order in which it enters nodes: each entry
/// of the order is the one a depth-first search enters next; an entered node
/// that is no longer on a frame has all its out-neighbours entered; the
/// out-neighbours a frame has looked at are entered, but for the node of a
/// frame pushed last and not entered yet, which is the next to be entered;
/// and each component closed lists its nodes latest entered first.
pub(super) closed spec fn disc_inv(st: &TarjanState, g: &DirectedGraph) -> bool {
    let cs = st.call_stack@;
    let order = st.order@;
    &&& forall|k: int| 0 <= k < order.len() ==> #[trigger] discovery_entry(g, order.take(k), order[k])
    &&& forall|k: int| 0 <= k < order.len() ==> on_frames(cs, order[k]) || !has_unlisted(g, order, #[trigger] order[k])
    &&& forall|i: int, t: int| 0 <= i < cs.len() && (#[trigger] cs[i]).visited && 0 <= t < cs[i].neighbor_idx ==>
        order.contains(#[trigger] g.adj(cs[i].node as int)[t])
        || (top_fresh(cs) == 1 && i == cs.len() - 2 && g.adj(cs[i].node as int)[t] == cs.last().node)
    &&& top_fresh(cs) == 1 ==> discovery_entry(g, order, cs.last().node)
    &&& forall|c: int, a: int, b: int| 0 <= c < st.sccs@.len() && 0 <= a < b < st.sccs@[c]@.len() ==>
        idx(st.indices@, #[trigger] st.sccs@[c]@[a]) > idx(st.indices@, #[trigger] st.sccs@[c]@[b])
}

/// Before anything is entered the invariant holds.
pub(super) proof fn lemma_disc_initial(st: &TarjanState, g: &DirectedGraph)
    requires
        st.call_stack@.len() == 0,
        st.order@.len() == 0,
        st.sccs@.len() == 0,
    ensures
        disc_inv(st, g),
{
}

/// Pushing the first frame of a search from `start_v`, the least node not
/// entered, when no frame is open.
pub(super) proof fn lemma_disc_start(g: &DirectedGraph, s0: &TarjanState, s1: &TarjanState, start_v: usize)
    requires
        disc_inv(s0, g),
        s0.call_stack@.len() == 0,
        s1.call_stack@ == seq![TarjanFrame { node: start_v, neighbor_idx: 0, visited: false }],
        s1.order@ == s0.order@,
        s1.sccs@ == s0.sccs@,
        s1.indices@ == s0.indices@,
        start_v < g.n(),
        !s0.order@.contains(start_v),
        forall|z: usize| z < start_v ==> #[trigger] s0.order@.contains(z),
    ensures
        disc_inv(s1, g),
{
    let order = s0.order@;
    assert forall|k: int| 0 <= k < order.len() implies !has_unlisted(g, order, #[trigger] order[k]) by {
        assert(!on_frames(s0.call_stack@, order[k]));
    }
    assert(walk_done(g, order));
    assert(discovery_entry(g, order, start_v));
    assert forall|k: int| 0 <= k < order.len() implies on_frames(s1.call_stack@, order[k]) || !has_unlisted(g, order, #[trigger] order[k]) by {}
}

/// Entering the node of the top frame.
pub(super) proof fn lemma_disc_enter(g: &DirectedGraph, s0: &TarjanState, s1: &TarjanState)
    requires
        disc_inv(s0, g),
        s0.settled(g),
        s0.call_stack@.last().node < g.n(),
        enter_step(s0, s1),
        s1.order@ == s0.order@.push(s0.call_stack@.last().node),
        !s0.order@.contains(s0.call_stack@.last().node),
        forall|c: int, a: int| 0 <= c < s0.sccs@.len() && 0 <= a < s0.sccs@[c]@.len() ==>
            s0.order@.contains(#[trigger] s0.sccs@[c]@[a]),
        forall|i: int| 0 <= i < s0.call_stack@.len() && !(#[trigger] s0.call_stack@[i]).visited ==> s0.call_stack@[i].neighbor_idx == 0,
    ensures
        disc_inv(s1, g),
{
    let cs0 = s0.call_stack@;
    let cs1 = s1.call_stack@;
    let o0 = s0.order@;
    let o1 = s1.order@;
    let w = cs0.last().node;
    let t = cs0.len() - 1;
    assert(top_fresh(cs0) == 1);
    assert(top_fresh(cs1) == 0);
    assert forall|k: int| 0 <= k < o1.len() implies #[trigger] discovery_entry(g, o1.take(k), o1[k]) by {
        if k < o0.len() {
            assert(o1.take(k) =~= o0.take(k));
            assert(o1[k] == o0[k]);
        } else {
            assert(o1.take(k) =~= o0);
        }
    }
    assert(o1.contains(w)) by { assert(o1[o0.len() as int] == w); }
    assert forall|k: int| 0 <= k < o1.len() implies on_frames(cs1, o1[k]) || !has_unlisted(g, o1, #[trigger] o1[k]) by {
        if k < o0.len() {
            assert(o1[k] == o0[k]);
            if on_frames(cs0, o0[k]) {
                let i = choose|i: int| 0 <= i < cs0.len() && (#[trigger] cs0[i]).visited && cs0[i].node == o0[k];
                assert(cs1[i].visited && cs1[i].node == o0[k]);
            } else {
                lemma_unlisted_grow(g, o0, w, o0[k]);
            }
        } else {
            assert(cs1[t].visited && cs1[t].node == w);
        }
    }
    assert forall|i: int, tt: int| 0 <= i < cs1.len() && (#[trigger] cs1[i]).visited && 0 <= tt < cs1[i].neighbor_idx implies
        o1.contains(#[trigger] g.adj(cs1[i].node as int)[tt])
        || (top_fresh(cs1) == 1 && i == cs1.len() - 2 && g.adj(cs1[i].node as int)[tt] == cs1.last().node) by {
        if i < t {
            assert(cs1[i] == cs0[i]);
            let y = g.adj(cs0[i].node as int)[tt];
            if o0.contains(y) {
                let m = choose|m: int| 0 <= m < o0.len() && o0[m] == y;
                assert(o1[m] == y);
            }
        } else {
            assert(cs0[t].neighbor_idx == 0);
        }
    }
    assert forall|c: int, a: int, b: int| 0 <= c < s1.sccs@.len() && 0 <= a < b < s1.sccs@[c]@.len() implies
        idx(s1.indices@, #[trigger] s1.sccs@[c]@[a]) > idx(s1.indices@, #[trigger] s1.sccs@[c]@[b]) by {
        let x = s0.sccs@[c]@[a];
        let y = s0.sccs@[c]@[b];
        assert(o0.contains(x) && o0.contains(y));
        assert(x != w && y != w);
        let kx = choose|k: int| 0 <= k < o0.len() && o0[k] == x;
        let ky = choose|k: int| 0 <= k < o0.len() && o0[k] == y;
        assert(x < g.n() && y < g.n());
        assert(s1.indices@[x as int] == s0.indices@[x as int]);
        assert(s1.indices@[y as int] == s0.indices@[y as int]);
        assert(idx(s0.indices@, x) > idx(s0.indices@, y));
    }
}

/// Looking at the next out-neighbour of the top frame's node.
pub(super) proof fn lemma_disc_advance(
    g: &DirectedGraph,
    s0: &TarjanState,
    s1: &TarjanState,
    start_v: usize,
    base: int,
    start_order: Seq<usize>,
)
    requires
        disc_inv(s0, g),
        s0.searching(g, start_v, base, start_order),
        advance_step(g, s0, s1),
        s1.order@ == s0.order@,
        s0.call_stack@.last().neighbor_idx < usize::MAX,
    ensures
        disc_inv(s1, g),
        ({
            let v = s0.call_stack@.last().node;
            let w = g.adj(v as int)[s0.call_stack@.last().neighbor_idx as int];
            s0.indices@[w as int] is None ==> entry_source(g, s0.order@, w, idx(s0.indices@, v))
        }),
{
    let cs0 = s0.call_stack@;
    let cs1 = s1.call_stack@;
    let order = s0.order@;
    let t = cs0.len() - 1;
    let v = cs0[t].node;
    let k = cs0[t].neighbor_idx as int;
    let w = g.adj(v as int)[k];
    let fresh = s0.indices@[w as int] is None;
    assert(top_fresh(cs0) == 0);
    assert(cs1[t].visited && cs1[t].node == v && cs1[t].neighbor_idx == k + 1);
    assert(forall|i: int| 0 <= i < t ==> #[trigger] cs1[i] == cs0[i]);
    assert(v < g.n());
    assert(w < g.n());
    assert(fresh ==> cs1.len() == t + 2 && cs1.last().node == w && !cs1.last().visited);
    assert(!fresh ==> cs1.len() == t + 1);
    assert forall|x: usize| #[trigger] on_frames(cs0, x) implies on_frames(cs1, x) by {
        let i = choose|i: int| 0 <= i < cs0.len() && (#[trigger] cs0[i]).visited && cs0[i].node == x;
        assert(cs1[i].visited && cs1[i].node == x);
    }
    assert forall|kk: int| 0 <= kk < order.len() implies on_frames(cs1, order[kk]) || !has_unlisted(g, order, #[trigger] order[kk]) by {
        if on_frames(cs0, order[kk]) {}
    }
    assert forall|i: int, tt: int| 0 <= i < cs1.len() && (#[trigger] cs1[i]).visited && 0 <= tt < cs1[i].neighbor_idx implies
        order.contains(#[trigger] g.adj(cs1[i].node as int)[tt])
        || (top_fresh(cs1) == 1 && i == cs1.len() - 2 && g.adj(cs1[i].node as int)[tt] == cs1.last().node) by {
        if i < t {
            assert(cs0[i].visited);
        } else if i == t {
            if tt < k {
                assert(cs0[t].visited && 0 <= tt < cs0[t].neighbor_idx);
            } else if !fresh {
                assert(s0.indices@[w as int] is Some);
                assert(order.contains(w));
            }
        }
    }
    if fresh {
        let j = idx(s0.indices@, v);
        assert(order.contains(v));
        let m = choose|m: int| 0 <= m < order.len() && order[m] == v;
        assert(s0.indices@[order[m] as int] == Some(m as usize));
        assert(j == m);
        assert(!order.contains(w)) by {
            if order.contains(w) {
                let q = choose|q: int| 0 <= q < order.len() && order[q] == w;
                assert(s0.indices@[order[q] as int] == Some(q as usize));
            }
        }
        assert forall|t2: int| 0 <= t2 < k implies order.contains(#[trigger] g.adj(v as int)[t2]) by {
            assert(cs0[t].visited && 0 <= t2 < cs0[t].neighbor_idx);
        }
        assert(g.adj(v as int)[k] == w);
        assert(first_unlisted(g, order, order[j], w));
        assert forall|j2: int| j < j2 < order.len() implies !has_unlisted(g, order, #[trigger] order[j2]) by {
            if on_frames(cs0, order[j2]) {
                let i = choose|i: int| 0 <= i < cs0.len() && (#[trigger] cs0[i]).visited && cs0[i].node == order[j2];
                assert(s0.indices@[order[j2] as int] == Some(j2 as usize));
                if i < t {
                    assert(idx(s0.indices@, cs0[i].node) < idx(s0.indices@, cs0[t].node));
                }
            }
        }
        assert(discovery_entry(g, order, w));
        assert(entry_source(g, order, w, j));
    }
    assert(cs0.last() == cs0[t]);
}

/// Finishing the top frame, and closing a component when its node is the
/// root of one.
pub(super) proof fn lemma_disc_finish(
    g: &DirectedGraph,
    s0: &TarjanState,
    s1: &TarjanState,
    pos: int,
    start_v: usize,
    base: int,
    start_order: Seq<usize>,
)
    requires
        disc_inv(s0, g),
        s0.searching(g, start_v, base, start_order),
        finish_step(g, s0, s1, pos),
        s1.order@ == s0.order@,
    ensures
        disc_inv(s1, g),
{
    let cs0 = s0.call_stack@;
    let cs1 = s1.call_stack@;
    let order = s0.order@;
    let t = cs0.len() - 1;
    let v = cs0[t].node;
    assert(top_fresh(cs0) == 0);
    assert(forall|i: int| 0 <= i < t ==> #[trigger] cs1[i] == cs0[i]);
    assert(top_fresh(cs1) == 0) by {
        if cs1.len() > 0 {
            assert(cs1.last() == cs0[t - 1]);
        }
    }
    assert(!has_unlisted(g, order, v)) by {
        assert forall|tt: int| 0 <= tt < g.adj(v as int).len() implies order.contains(#[trigger] g.adj(v as int)[tt]) by {
            assert(cs0[t].visited && 0 <= tt < cs0[t].neighbor_idx);
        }
    }
    assert forall|kk: int| 0 <= kk < order.len() implies on_frames(cs1, order[kk]) || !has_unlisted(g, order, #[trigger] order[kk]) by {
        if on_frames(cs0, order[kk]) {
            let i = choose|i: int| 0 <= i < cs0.len() && (#[trigger] cs0[i]).visited && cs0[i].node == order[kk];
            if i < t {
                assert(cs1[i].visited && cs1[i].node == order[kk]);
            }
        }
    }
    assert forall|i: int, tt: int| 0 <= i < cs1.len() && (#[trigger] cs1[i]).visited && 0 <= tt < cs1[i].neighbor_idx implies
        order.contains(#[trigger] g.adj(cs1[i].node as int)[tt]) by {
        assert(cs0[i].visited);
    }
    let st = s0.stack@;
    assert forall|c: int, a: int, b: int| 0 <= c < s1.sccs@.len() && 0 <= a < b < s1.sccs@[c]@.len() implies
        idx(s1.indices@, #[trigger] s1.sccs@[c]@[a]) > idx(s1.indices@, #[trigger] s1.sccs@[c]@[b]) by {
        if closes_root(s0) && c == s0.sccs@.len() {
            let last = s1.sccs@.last()@;
            assert(s1.sccs@[c] == s1.sccs@.last());
            assert(last[a] == st[st.len() - 1 - a]);
            assert(last[b] == st[st.len() - 1 - b]);
            assert(idx(s0.indices@, st[st.len() - 1 - b]) < idx(s0.indices@, st[st.len() - 1 - a]));
        } else {
            assert(s1.sccs@[c] == s0.sccs@[c]);
        }
    }
}

/// What the search keeps of the tree it walks and of the order in which the
/// roots of the components finish: each entered frame was entered from the
/// frame below it, the first from none; every node entered after the node of
/// an entered frame descends from it; a frame pushed and not yet entered
/// will be entered from the frame below it, or from none when it is alone;
/// and the components closed come in the order in which their roots, their
/// last listed nodes, finished.
pub(super) closed spec fn fin_inv(st: &TarjanState, g: &DirectedGraph) -> bool {
    let cs = st.call_stack@;
    let order = st.order@;
    let ind = st.indices@;
    &&& forall|k: int| 0 < k < cs.len() && (#[trigger] cs[k]).visited ==>
        entered_from(g, order.take(idx(ind, cs[k].node)), cs[k].node) == idx(ind, cs[k - 1].node)
    &&& cs.len() > 0 && cs[0].visited ==> entered_from(g, order.take(idx(ind, cs[0].node)), cs[0].node) == -1
    &&& forall|k: int, x: usize| 0 <= k < cs.len() && (#[trigger] cs[k]).visited && x < g.n() && (#[trigger] ind[x as int]) is Some
        && idx(ind, x) > idx(ind, cs[k].node) ==> descends(g, order, idx(ind, x), idx(ind, cs[k].node))
    &&& top_fresh(cs) == 1 && cs.len() > 1 ==> entered_from(g, order, cs.last().node) == idx(ind, cs[cs.len() - 2].node)
    &&& top_fresh(cs) == 1 && cs.len() == 1 ==> entered_from(g, order, cs.last().node) == -1
    &&& forall|c1: int, c2: int| 0 <= c1 < c2 < st.sccs@.len() ==>
        finishes_before(g, order, idx(ind, (#[trigger] st.sccs@[c1])@.last()), idx(ind, (#[trigger] st.sccs@[c2])@.last()))
}

/// An entered node stands in the order at its index.
proof fn lemma_pos(st: &TarjanState, g: &DirectedGraph, x: usize)
    requires
        st.settled(g),
        x < g.n(),
        st.indices@[x as int] is Some,
    ensures
        0 <= idx(st.indices@, x) < st.order@.len(),
        st.order@[idx(st.indices@, x)] == x,
{
    assert(st.order@.contains(x));
    let m = choose|m: int| 0 <= m < st.order@.len() && st.order@[m] == x;
    assert(st.indices@[st.order@[m] as int] == Some(m as usize));
}

/// Before anything is entered the invariant holds.
pub(super) proof fn lemma_fin_initial(st: &TarjanState, g: &DirectedGraph)
    requires
        st.call_stack@.len() == 0,
        st.sccs@.len() == 0,
    ensures
        fin_inv(st, g),
{
}

/// Pushing the first frame of a search when no frame is open.
pub(super) proof fn lemma_fin_start(g: &DirectedGraph, s0: &TarjanState, s1: &TarjanState, start_v: usize)
    requires
        fin_inv(s0, g),
        disc_inv(s0, g),
        s0.call_stack@.len() == 0,
        s1.call_stack@ == seq![TarjanFrame { node: start_v, neighbor_idx: 0, visited: false }],
        s1.order@ == s0.order@,
        s1.sccs@ == s0.sccs@,
        s1.indices@ == s0.indices@,
    ensures
        fin_inv(s1, g),
{
    let order = s0.order@;
    assert forall|k: int| 0 <= k < order.len() implies !has_unlisted(g, order, #[trigger] order[k]) by {
        assert(!on_frames(s0.call_stack@, order[k]));
    }
    lemma_entered_from_start(g, order, start_v);
    assert(top_fresh(s1.call_stack@) == 1);
}

/// Entering the node of the top frame.
#[verifier::rlimit(60)]
pub(super) proof fn lemma_fin_enter(
    g: &DirectedGraph,
    s0: &TarjanState,
    s1: &TarjanState,
    start_v: usize,
    base: int,
    start_order: Seq<usize>,
)
    requires
        fin_inv(s0, g),
        s0.searching(g, start_v, base, start_order),
        s1.settled(g),
        enter_step(s0, s1),
        s1.order@ == s0.order@.push(s0.call_stack@.last().node),
        !s0.order@.contains(s0.call_stack@.last().node),
        forall|c: int, a: int| 0 <= c < s0.sccs@.len() && 0 <= a < s0.sccs@[c]@.len() ==>
            s0.order@.contains(#[trigger] s0.sccs@[c]@[a]),
    ensures
        fin_inv(s1, g),
{
    let cs0 = s0.call_stack@;
    let cs1 = s1.call_stack@;
    let o0 = s0.order@;
    let o1 = s1.order@;
    let i0 = s0.indices@;
    let i1 = s1.indices@;
    let t = cs0.len() - 1;
    let w = cs0[t].node;
    let pw = o0.len() as int;
    assert(top_fresh(cs0) == 1);
    assert(cs0.last() == cs0[t]);
    assert(w < g.n());
    assert(o1.take(pw) =~= o0);
    assert(idx(i1, w) == pw);
    assert(forall|k: int| 0 <= k < t ==> #[trigger] cs1[k] == cs0[k]);
    assert(cs1[t].visited && cs1[t].node == w);
    // nodes entered before keep their index, below `pw`
    assert forall|x: usize| x < g.n() && #[trigger] i0[x as int] is Some implies i1[x as int] == i0[x as int]
        && 0 <= idx(i0, x) < pw && o0[idx(i0, x)] == x by {
        lemma_pos(s0, g, x);
        assert(x != w);
    }
    assert forall|k: int| 0 < k < cs1.len() && (#[trigger] cs1[k]).visited implies
        entered_from(g, o1.take(idx(i1, cs1[k].node)), cs1[k].node) == idx(i1, cs1[k - 1].node) by {
        if k < t {
            assert(cs0[k].visited && cs0[k - 1].visited);
            let a = idx(i0, cs0[k].node);
            assert(i0[cs0[k].node as int] is Some);
            assert(i0[cs0[k - 1].node as int] is Some);
            assert(o1.take(a) =~= o0.take(a));
        } else {
            assert(cs0[t - 1].visited);
            assert(i0[cs0[t - 1].node as int] is Some);
        }
    }
    if cs1.len() > 0 && cs1[0].visited {
        if t > 0 {
            assert(cs0[0].visited);
            assert(i0[cs0[0].node as int] is Some);
            let a = idx(i0, cs0[0].node);
            assert(o1.take(a) =~= o0.take(a));
        }
    }
    assert forall|k: int, x: usize| 0 <= k < cs1.len() && (#[trigger] cs1[k]).visited && x < g.n() && (#[trigger] i1[x as int]) is Some
        && idx(i1, x) > idx(i1, cs1[k].node) implies descends(g, o1, idx(i1, x), idx(i1, cs1[k].node)) by {
        if k == t {
            if x != w {
                assert(i0[x as int] is Some);
            }
        } else {
            assert(cs0[k].visited);
            assert(i0[cs0[k].node as int] is Some);
            let ak = idx(i0, cs0[k].node);
            if x == w {
                assert(t > 0);
                assert(cs0[t - 1].visited);
                assert(i0[cs0[t - 1].node as int] is Some);
                let ap = idx(i0, cs0[t - 1].node);
                assert(entered_from(g, o0, w) == ap);
                assert(o1[pw] == w);
                if k < t - 1 {
                    assert(idx(i0, cs0[k].node) < idx(i0, cs0[t - 1].node));
                    assert(descends(g, o0, ap, ak));
                    lemma_descends_extend(g, o0, o1, ap, ak);
                }
                assert(descends(g, o1, ap, ak));
                assert(descends(g, o1, pw, ak));
            } else {
                assert(i0[x as int] is Some);
                assert(descends(g, o0, idx(i0, x), ak));
                lemma_descends_extend(g, o0, o1, idx(i0, x), ak);
            }
        }
    }
    assert(top_fresh(cs1) == 0);
    assert forall|c1: int, c2: int| 0 <= c1 < c2 < s1.sccs@.len() implies
        finishes_before(g, o1, idx(i1, (#[trigger] s1.sccs@[c1])@.last()), idx(i1, (#[trigger] s1.sccs@[c2])@.last())) by {
        let r1 = s0.sccs@[c1]@.last();
        let r2 = s0.sccs@[c2]@.last();
        assert(s0.sccs@[c1]@.len() > 0 && s0.sccs@[c2]@.len() > 0);
        assert(o0.contains(s0.sccs@[c1]@[s0.sccs@[c1]@.len() - 1]));
        assert(o0.contains(s0.sccs@[c2]@[s0.sccs@[c2]@.len() - 1]));
        let k1 = choose|m: int| 0 <= m < o0.len() && o0[m] == r1;
        let k2 = choose|m: int| 0 <= m < o0.len() && o0[m] == r2;
        assert(i0[o0[k1] as int] == Some(k1 as usize));
        assert(i0[o0[k2] as int] == Some(k2 as usize));
        assert(i1[r1 as int] == i0[r1 as int]);
        assert(i1[r2 as int] == i0[r2 as int]);
        lemma_descends_extend(g, o0, o1, k1, k2);
        lemma_descends_extend(g, o0, o1, k2, k1);
    }
}

/// Looking at the next out-neighbour of the top frame's node.
pub(super) proof fn lemma_fin_advance(
    g: &DirectedGraph,
    s0: &TarjanState,
    s1: &TarjanState,
    start_v: usize,
    base: int,
    start_order: Seq<usize>,
)
    requires
        fin_inv(s0, g),
        s0.searching(g, start_v, base, start_order),
        advance_step(g, s0, s1),
        s1.order@ == s0.order@,
        s0.call_stack@.last().neighbor_idx < usize::MAX,
        ({
            let v = s0.call_stack@.last().node;
            let w = g.adj(v as int)[s0.call_stack@.last().neighbor_idx as int];
            s0.indices@[w as int] is None ==> entry_source(g, s0.order@, w, idx(s0.indices@, v))
        }),
    ensures
        fin_inv(s1, g),
{
    let cs0 = s0.call_stack@;
    let cs1 = s1.call_stack@;
    let t = cs0.len() - 1;
    let v = cs0[t].node;
    let k = cs0[t].neighbor_idx as int;
    let w = g.adj(v as int)[k];
    assert(cs0.last() == cs0[t]);
    assert(top_fresh(cs0) == 0);
    assert(cs1[t].visited && cs1[t].node == v);
    assert(forall|i: int| 0 <= i < t ==> #[trigger] cs1[i] == cs0[i]);
    assert forall|i: int| 0 <= i < cs1.len() && (#[trigger] cs1[i]).visited implies i <= t && cs1[i].node == cs0[i].node
        && cs0[i].visited by {}
    assert forall|kk: int| 0 < kk < cs1.len() && (#[trigger] cs1[kk]).visited implies
        entered_from(g, s1.order@.take(idx(s1.indices@, cs1[kk].node)), cs1[kk].node) == idx(s1.indices@, cs1[kk - 1].node) by {
        assert(cs0[kk].visited);
    }
    assert forall|kk: int, x: usize| 0 <= kk < cs1.len() && (#[trigger] cs1[kk]).visited && x < g.n() && (#[trigger] s1.indices@[x as int]) is Some
        && idx(s1.indices@, x) > idx(s1.indices@, cs1[kk].node) implies
        descends(g, s1.order@, idx(s1.indices@, x), idx(s1.indices@, cs1[kk].node)) by {
        assert(cs0[kk].visited);
    }
    if s0.indices@[w as int] is None {
        lemma_entered_from_source(g, s0.order@, w, idx(s0.indices@, v));
        assert(cs1.len() == t + 2);
        assert(cs1[cs1.len() - 2] == cs1[t]);
    }
}

/// Every node above which the node of the entered frame `k` descends is the
/// node of a frame at or below it.
proof fn lemma_frame_ancestors(
    g: &DirectedGraph,
    s0: &TarjanState,
    start_v: usize,
    base: int,
    start_order: Seq<usize>,
    k: int,
    p: int,
)
    requires
        fin_inv(s0, g),
        s0.searching(g, start_v, base, start_order),
        0 <= k < s0.call_stack@.len(),
        s0.call_stack@[k].visited,
        descends(g, s0.order@, idx(s0.indices@, s0.call_stack@[k].node), p),
    ensures
        exists|k2: int| 0 <= k2 <= k && idx(s0.indices@, s0.call_stack@[k2].node) == p,
    decreases k,
{
    let cs = s0.call_stack@;
    let a = idx(s0.indices@, cs[k].node);
    lemma_pos(s0, g, cs[k].node);
    if a <= p {
        assert(a == p);
    } else {
        assert(s0.order@[a] == cs[k].node);
        if k > 0 {
            assert(cs[k - 1].visited);
            lemma_frame_ancestors(g, s0, start_v, base, start_order, k - 1, p);
            let k2 = choose|k2: int| 0 <= k2 <= k - 1 && idx(s0.indices@, s0.call_stack@[k2].node) == p;
        } else {
            assert(entered_from(g, s0.order@.take(a), cs[0].node) == -1);
        }
    }
}

/// Finishing the top frame, and closing a component when its node is the
/// root of one.
pub(super) proof fn lemma_fin_finish(
    g: &DirectedGraph,
    s0: &TarjanState,
    s1: &TarjanState,
    pos: int,
    start_v: usize,
    base: int,
    start_order: Seq<usize>,
)
    requires
        fin_inv(s0, g),
        s0.searching(g, start_v, base, start_order),
        finish_step(g, s0, s1, pos),
        s1.order@ == s0.order@,
        forall|c: int, a: int| 0 <= c < s0.sccs@.len() && 0 <= a < s0.sccs@[c]@.len() ==>
            !s0.stack@.contains(#[trigger] s0.sccs@[c]@[a]) && s0.order@.contains(s0.sccs@[c]@[a]),
    ensures
        fin_inv(s1, g),
{
    let cs0 = s0.call_stack@;
    let cs1 = s1.call_stack@;
    let order = s0.order@;
    let ind = s0.indices@;
    let t = cs0.len() - 1;
    let v = cs0[t].node;
    assert(top_fresh(cs0) == 0);
    assert(forall|i: int| 0 <= i < t ==> #[trigger] cs1[i] == cs0[i]);
    assert(top_fresh(cs1) == 0) by {
        if cs1.len() > 0 {
            assert(cs1.last() == cs0[t - 1]);
        }
    }
    assert forall|kk: int| 0 < kk < cs1.len() && (#[trigger] cs1[kk]).visited implies
        entered_from(g, order.take(idx(ind, cs1[kk].node)), cs1[kk].node) == idx(ind, cs1[kk - 1].node) by {
        assert(cs0[kk].visited);
    }
    assert forall|kk: int, x: usize| 0 <= kk < cs1.len() && (#[trigger] cs1[kk]).visited && x < g.n() && (#[trigger] ind[x as int]) is Some
        && idx(ind, x) > idx(ind, cs1[kk].node) implies descends(g, order, idx(ind, x), idx(ind, cs1[kk].node)) by {
        assert(cs0[kk].visited);
    }
    if closes_root(s0) {
        let st = s0.stack@;
        let lastc = s1.sccs@.last()@;
        assert(lastc.len() == st.len() - pos);
        assert(lastc[lastc.len() - 1] == st[st.len() - 1 - (lastc.len() - 1)]);
        assert(lastc.last() == v);
        assert forall|c1: int, c2: int| 0 <= c1 < c2 < s1.sccs@.len() implies
            finishes_before(g, order, idx(ind, (#[trigger] s1.sccs@[c1])@.last()), idx(ind, (#[trigger] s1.sccs@[c2])@.last())) by {
            assert(s1.sccs@[c1] == s0.sccs@[c1]);
            if c2 < s0.sccs@.len() {
                assert(s1.sccs@[c2] == s0.sccs@[c2]);
            } else {
                assert(s1.sccs@[c2] == s1.sccs@.last());
                let comp = s0.sccs@[c1]@;
                assert(comp.len() > 0);
                let r = comp[comp.len() - 1];
                assert(!st.contains(r) && order.contains(r));
                lemma_root_before_top(g, s0, start_v, base, start_order, r);
            }
        }
    }
}

/// A node entered and no longer on the stack finishes before the node of
/// the top frame.
proof fn lemma_root_before_top(
    g: &DirectedGraph,
    s0: &TarjanState,
    start_v: usize,
    base: int,
    start_order: Seq<usize>,
    r: usize,
)
    requires
        fin_inv(s0, g),
        s0.searching(g, start_v, base, start_order),
        s0.call_stack@.len() > 0,
        s0.call_stack@.last().visited,
        !s0.stack@.contains(r),
        s0.order@.contains(r),
    ensures
        finishes_before(g, s0.order@, idx(s0.indices@, r), idx(s0.indices@, s0.call_stack@.last().node)),
{
    let cs0 = s0.call_stack@;
    let order = s0.order@;
    let ind = s0.indices@;
    let t = cs0.len() - 1;
    let v = cs0[t].node;
    assert(cs0.last() == cs0[t]);
    let m = choose|m: int| 0 <= m < order.len() && order[m] == r;
    assert(ind[order[m] as int] == Some(m as usize));
    assert(r < g.n());
    lemma_pos(s0, g, r);
    lemma_pos(s0, g, v);
    let pr = idx(ind, r);
    let pv = idx(ind, v);
    assert(r != v);
    if pr > pv {
        assert(descends(g, order, pr, pv));
    } else {
        assert(pr != pv);
        if descends(g, order, pv, pr) {
            lemma_frame_ancestors(g, s0, start_v, base, start_order, t, pr);
            let k2 = choose|k2: int| 0 <= k2 <= t && idx(ind, cs0[k2].node) == pr;
            assert(cs0[k2].visited);
            lemma_pos(s0, g, cs0[k2].node);
            assert(cs0[k2].node == r);
            assert(s0.stack@.contains(cs0[k2].node));
        }
    }
}

/// What the order invariant gives once the search is over: every entry of
/// the order is the one a depth-first search enters next, and each component
/// lists its nodes latest entered first.
pub(super) proof fn lemma_disc_result(st: &TarjanState, g: &DirectedGraph)
    requires
        disc_inv(st, g),
    ensures
        forall|k: int| 0 <= k < st.order@.len() ==> #[trigger] discovery_entry(g, st.order@.take(k), st.order@[k]),
        forall|c: int, a: int, b: int| 0 <= c < st.sccs@.len() && 0 <= a < b < st.sccs@[c]@.len() ==>
            idx(st.indices@, #[trigger] st.sccs@[c]@[a]) > idx(st.indices@, #[trigger] st.sccs@[c]@[b]),
{
}

/// What the finishing invariant gives: the components come in the order in
/// which their roots finish.
pub(super) proof fn lemma_fin_result(st: &TarjanState, g: &DirectedGraph)
    requires
        fin_inv(st, g),
    ensures
        forall|c1: int, c2: int| 0 <= c1 < c2 < st.sccs@.len() ==>
            finishes_before(g, st.order@, idx(st.indices@, (#[trigger] st.sccs@[c1])@.last()),
                idx(st.indices@, (#[trigger] st.sccs@[c2])@.last())),
{
}

} // verus!
