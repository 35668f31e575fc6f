//! What the order in which a depth-first search finishes nodes says about
//! reachability, and why the search that computes it keeps that knowledge.

use vstd::prelude::*;

use crate::graph::facts::{
    flat, is_component, is_walk, lemma_concat_contains, lemma_distinct_below, lemma_edge_reaches, lemma_flat_contains,
    lemma_flat_member, lemma_push_contains, lemma_reaches_self, lemma_reaches_trans, reaches,
};
use crate::model::DirectedGraph;

verus! {

/// `a` and `b` reach each other.
pub(super) open spec fn mutual(g: &DirectedGraph, a: usize, b: usize) -> bool {
    reaches(g, a, b) && reaches(g, b, a)
}

/// `x` stands in `order` no later than `u`.
pub(super) open spec fn no_later(order: Seq<usize>, x: usize, u: usize) -> bool {
    exists|i: int, j: int| 0 <= i <= j < order.len() && order[i] == x && order[j] == u
}

/// What a finishing order says about reachability: whatever a node reaches
/// finishes no later than the node itself or than some node in its strongly
/// connected component.
pub(super) open spec fn finish_law(g: &DirectedGraph, order: Seq<usize>) -> bool {
    forall|u: usize, x: usize| order.contains(u) && #[trigger] reaches(g, u, x) ==>
        no_later(order, x, u) || exists|h: usize| #[trigger] mutual(g, u, h) && no_later(order, x, h)
}

/// `x` has been entered and not finished: an entry `(x, true)` is on the
/// stack.
pub(super) open spec fn gray(stack: Seq<(usize, bool)>, x: usize) -> bool {
    exists|k: int| 0 <= k < stack.len() && stack[k] == (x, true)
}

/// Every entered node on the stack reaches every entry above it.
#[verifier::opaque]
spec fn fo_above(g: &DirectedGraph, stack: Seq<(usize, bool)>) -> bool {
    forall|m: int, k: int| 0 <= m < k < stack.len() && (#[trigger] stack[m]).1 ==> reaches(g, stack[m].0, (#[trigger] stack[k]).0)
}

/// The neighbours of finished nodes have been entered.
#[verifier::opaque]
spec fn fo_closed(g: &DirectedGraph, order: Seq<usize>, seen: Seq<usize>) -> bool {
    forall|x: usize, y: usize| order.contains(x) && #[trigger] g.edge(x as int, y as int) ==> seen.contains(y)
}

/// What the finishing order says so far: what a finished node reaches
/// finishes no later than it or than a node of its component, or is reached
/// from an entered, unfinished node of its component.
#[verifier::opaque]
spec fn fo_law(g: &DirectedGraph, stack: Seq<(usize, bool)>, order: Seq<usize>) -> bool {
    forall|u: usize, x: usize| order.contains(u) && #[trigger] reaches(g, u, x) ==>
        no_later(order, x, u)
        || (exists|h: usize| #[trigger] mutual(g, u, h) && no_later(order, x, h))
        || (exists|h: usize| #[trigger] gray(stack, h) && mutual(g, u, h) && reaches(g, h, x))
}

/// Each neighbour of an entered node on the stack has been entered or waits
/// above it on the stack; for the entry at `t` only the neighbours from the
/// `j`-th on are covered so far.
#[verifier::opaque]
spec fn fo_cover(g: &DirectedGraph, stack: Seq<(usize, bool)>, seen: Seq<usize>, t: int, j: int) -> bool {
    &&& forall|k: int, y: usize| 0 <= k < stack.len() && (#[trigger] stack[k]).1 && k != t
        && #[trigger] g.edge(stack[k].0 as int, y as int) ==>
        seen.contains(y) || exists|k2: int| k < k2 < stack.len() && #[trigger] stack[k2] == (y, false)
    &&& 0 <= t < stack.len() ==> forall|i: int| j <= i < g.adj(stack[t].0 as int).len() ==>
        seen.contains(#[trigger] g.adj(stack[t].0 as int)[i])
        || exists|k2: int| t < k2 < stack.len() && #[trigger] stack[k2] == (g.adj(stack[t].0 as int)[i], false)
}

/// What the search knows, but for the neighbours of the node being entered.
pub(super) closed spec fn fo_core(g: &DirectedGraph, stack: Seq<(usize, bool)>, order: Seq<usize>, seen: Seq<usize>) -> bool {
    &&& fo_above(g, stack)
    &&& fo_closed(g, order, seen)
    &&& fo_law(g, stack, order)
}

/// The neighbours covered so far; see `fo_cover`.
pub(super) closed spec fn fo_cover_at(g: &DirectedGraph, stack: Seq<(usize, bool)>, seen: Seq<usize>, t: int, j: int) -> bool {
    fo_cover(g, stack, seen, t, j)
}

/// A walk reaches each of its entries from its first, and its last from each.
pub(super) proof fn lemma_walk_reaches(g: &DirectedGraph, w: Seq<usize>, i: int)
    requires
        is_walk(g, w),
        0 <= i < w.len(),
    ensures
        reaches(g, w[0], w[i]),
        reaches(g, w[i], w.last()),
{
    let p = w.take(i + 1);
    assert forall|k: int| 0 <= k < p.len() - 1 implies #[trigger] g.edge(p[k] as int, p[k + 1] as int) by {
        assert(p[k] == w[k] && p[k + 1] == w[k + 1]);
    }
    assert(is_walk(g, p));
    assert(p[0] == w[0] && p.last() == w[i]);
    let q = w.skip(i);
    assert forall|k: int| 0 <= k < q.len() - 1 implies #[trigger] g.edge(q[k] as int, q[k + 1] as int) by {
        assert(q[k] == w[i + k] && q[k + 1] == w[i + k + 1]);
    }
    assert(is_walk(g, q));
    assert(q[0] == w[i] && q.last() == w.last());
}

/// The first entry of a walk that leaves a set, when the walk starts in it
/// and ends outside it.
proof fn lemma_find_exit(g: &DirectedGraph, w: Seq<usize>, order: Seq<usize>, i: int) -> (e: int)
    requires
        is_walk(g, w),
        0 <= i < w.len(),
        order.contains(w[i]),
        !order.contains(w.last()),
    ensures
        i < e < w.len(),
        !order.contains(w[e]),
        order.contains(w[e - 1]),
    decreases w.len() - i,
{
    if i == w.len() - 1 {
        assert(false);
        i
    } else if !order.contains(w[i + 1]) {
        i + 1
    } else {
        lemma_find_exit(g, w, order, i + 1)
    }
}

/// A finished node that reaches an unfinished node reaches it through an
/// entered, unfinished node.
proof fn lemma_first_unfinished(g: &DirectedGraph, order: Seq<usize>, seen: Seq<usize>, v: usize, x: usize) -> (h: usize)
    requires
        fo_closed(g, order, seen),
        order.contains(v),
        reaches(g, v, x),
        !order.contains(x),
    ensures
        reaches(g, v, h),
        reaches(g, h, x),
        seen.contains(h),
        !order.contains(h),
{
    reveal(fo_closed);
    let w = choose|w: Seq<usize>| #[trigger] is_walk(g, w) && w[0] == v && w.last() == x;
    let e = lemma_find_exit(g, w, order, 0);
    let f = e - 1;
    assert(g.edge(w[f] as int, w[f + 1] as int));
    lemma_walk_reaches(g, w, e);
    w[e]
}

/// Before any search, the knowledge holds.
pub(super) proof fn lemma_fo_initial(g: &DirectedGraph, seen: Seq<usize>)
    ensures
        fo_core(g, Seq::empty(), Seq::empty(), seen),
        fo_cover_at(g, Seq::empty(), seen, -1, 0),
{
    reveal(fo_above);
    reveal(fo_closed);
    reveal(fo_law);
    reveal(fo_cover);
}

/// A search starts from one waiting entry.
pub(super) proof fn lemma_fo_start(g: &DirectedGraph, order: Seq<usize>, seen: Seq<usize>, s: usize)
    requires
        fo_core(g, Seq::empty(), order, seen),
    ensures
        fo_core(g, seq![(s, false)], order, seen),
        fo_cover_at(g, seq![(s, false)], seen, -1, 0),
{
    reveal(fo_above);
    reveal(fo_closed);
    reveal(fo_law);
    reveal(fo_cover);
    let st = seq![(s, false)];
    assert forall|u: usize, x: usize| order.contains(u) && #[trigger] reaches(g, u, x) implies
        no_later(order, x, u)
        || (exists|h: usize| #[trigger] mutual(g, u, h) && no_later(order, x, h))
        || (exists|h: usize| #[trigger] gray(st, h) && mutual(g, u, h) && reaches(g, h, x)) by {
        if !no_later(order, x, u) && !(exists|h: usize| #[trigger] mutual(g, u, h) && no_later(order, x, h)) {
            let h = choose|h: usize| #[trigger] gray(Seq::<(usize, bool)>::empty(), h) && mutual(g, u, h) && reaches(g, h, x);
            assert(false);
        }
    }
}

/// Popping a waiting entry whose node has been entered keeps the knowledge.
pub(super) proof fn lemma_fo_skip(g: &DirectedGraph, stack: Seq<(usize, bool)>, order: Seq<usize>, seen: Seq<usize>)
    requires
        fo_core(g, stack, order, seen),
        fo_cover_at(g, stack, seen, -1, 0),
        stack.len() > 0,
        !stack.last().1,
        seen.contains(stack.last().0),
    ensures
        fo_core(g, stack.drop_last(), order, seen),
        fo_cover_at(g, stack.drop_last(), seen, -1, 0),
{
    reveal(fo_above);
    reveal(fo_closed);
    reveal(fo_law);
    reveal(fo_cover);
    let s1 = stack.drop_last();
    let top = stack.len() - 1;
    assert forall|m: int, k: int| 0 <= m < k < s1.len() && (#[trigger] s1[m]).1 implies reaches(g, s1[m].0, (#[trigger] s1[k]).0) by {
        assert(s1[m] == stack[m] && s1[k] == stack[k]);
    }
    assert forall|u: usize, x: usize| order.contains(u) && #[trigger] reaches(g, u, x) implies
        no_later(order, x, u)
        || (exists|h: usize| #[trigger] mutual(g, u, h) && no_later(order, x, h))
        || (exists|h: usize| #[trigger] gray(s1, h) && mutual(g, u, h) && reaches(g, h, x)) by {
        if !no_later(order, x, u) && !(exists|h: usize| #[trigger] mutual(g, u, h) && no_later(order, x, h)) {
            let h = choose|h: usize| #[trigger] gray(stack, h) && mutual(g, u, h) && reaches(g, h, x);
            let k = choose|k: int| 0 <= k < stack.len() && stack[k] == (h, true);
            assert(k != top);
            assert(s1[k] == (h, true));
            assert(gray(s1, h));
        }
    }
    assert forall|k: int, y: usize| 0 <= k < s1.len() && (#[trigger] s1[k]).1 && k != -1
        && #[trigger] g.edge(s1[k].0 as int, y as int) implies
        seen.contains(y) || exists|k2: int| k < k2 < s1.len() && #[trigger] s1[k2] == (y, false) by {
        assert(s1[k] == stack[k]);
        if !seen.contains(y) {
            let k2 = choose|k2: int| k < k2 < stack.len() && #[trigger] stack[k2] == (y, false);
            assert(k2 != top);
            assert(s1[k2] == (y, false));
        }
    }
}

/// Finishing the node of the entered entry on top of the stack keeps the
/// knowledge.
#[verifier::rlimit(20)]
pub(super) proof fn lemma_fo_finish(g: &DirectedGraph, stack: Seq<(usize, bool)>, order: Seq<usize>, seen: Seq<usize>, v: usize)
    requires
        fo_core(g, stack, order, seen),
        fo_cover_at(g, stack, seen, -1, 0),
        stack.len() > 0,
        stack.last() == (v, true),
        !order.contains(v),
        forall|x: usize| #[trigger] seen.contains(x) ==> order.contains(x) || gray(stack, x),
    ensures
        fo_core(g, stack.drop_last(), order.push(v), seen),
        fo_cover_at(g, stack.drop_last(), seen, -1, 0),
{
    reveal(fo_above);
    reveal(fo_closed);
    reveal(fo_law);
    reveal(fo_cover);
    let s1 = stack.drop_last();
    let o1 = order.push(v);
    let top = stack.len() - 1;
    assert(stack[top] == (v, true));
    assert forall|x: usize| #[trigger] o1.contains(x) <==> order.contains(x) || x == v by {
        lemma_push_contains(order, v, x);
    }
    assert forall|x: usize, u: usize| #[trigger] no_later(order, x, u) implies no_later(o1, x, u) by {
        let (i, j) = choose|i: int, j: int| 0 <= i <= j < order.len() && order[i] == x && order[j] == u;
        assert(o1[i] == x && o1[j] == u);
    }
    assert forall|x: usize| #[trigger] o1.contains(x) implies no_later(o1, x, v) by {
        let i = choose|i: int| 0 <= i < o1.len() && o1[i] == x;
        assert(o1[o1.len() - 1] == v);
    }
    assert forall|h: usize| #[trigger] gray(stack, h) && h != v implies gray(s1, h) by {
        let k = choose|k: int| 0 <= k < stack.len() && stack[k] == (h, true);
        assert(k != top);
        assert(s1[k] == (h, true));
    }
    assert forall|m: int, k: int| 0 <= m < k < s1.len() && (#[trigger] s1[m]).1 implies reaches(g, s1[m].0, (#[trigger] s1[k]).0) by {
        assert(s1[m] == stack[m] && s1[k] == stack[k]);
    }
    assert forall|x: usize, y: usize| o1.contains(x) && #[trigger] g.edge(x as int, y as int) implies seen.contains(y) by {
        if x == v {
            assert(stack[top].1 && top != -1);
            assert(g.edge(stack[top].0 as int, y as int));
            if !seen.contains(y) {
                assert(exists|k2: int| top < k2 < stack.len() && #[trigger] stack[k2] == (y, false));
                assert(false);
            }
        }
    }
    assert(fo_closed(g, o1, seen));
    // an unfinished node reached from v is reached through an entered
    // unfinished node below v, which reaches v
    assert forall|x: usize| #[trigger] reaches(g, v, x) && !o1.contains(x) implies
        exists|h: usize| #[trigger] gray(s1, h) && mutual(g, v, h) && reaches(g, h, x) by {
        let h = lemma_first_unfinished(g, o1, seen, v, x);
        assert(gray(stack, h));
        let k = choose|k: int| 0 <= k < stack.len() && stack[k] == (h, true);
        assert(k != top);
        assert(reaches(g, stack[k].0, stack[top].0));
        assert(gray(s1, h));
        assert(mutual(g, v, h));
    }
    assert forall|u: usize, x: usize| o1.contains(u) && #[trigger] reaches(g, u, x) implies
        no_later(o1, x, u)
        || (exists|h: usize| #[trigger] mutual(g, u, h) && no_later(o1, x, h))
        || (exists|h: usize| #[trigger] gray(s1, h) && mutual(g, u, h) && reaches(g, h, x)) by {
        if u == v {
            if o1.contains(x) {
                assert(no_later(o1, x, u));
            } else {
                assert(reaches(g, v, x) && !o1.contains(x));
            }
        } else if no_later(order, x, u) {
            assert(no_later(o1, x, u));
        } else if exists|h: usize| #[trigger] mutual(g, u, h) && no_later(order, x, h) {
            let h = choose|h: usize| #[trigger] mutual(g, u, h) && no_later(order, x, h);
            assert(no_later(o1, x, h));
        } else {
            let h = choose|h: usize| #[trigger] gray(stack, h) && mutual(g, u, h) && reaches(g, h, x);
            if h != v {
                assert(gray(s1, h));
            } else if o1.contains(x) {
                assert(no_later(o1, x, v));
                assert(mutual(g, u, v));
            } else {
                assert(reaches(g, v, x) && !o1.contains(x));
                let h2 = choose|h2: usize| #[trigger] gray(s1, h2) && mutual(g, v, h2) && reaches(g, h2, x);
                lemma_reaches_trans(g, u, v, h2);
                lemma_reaches_trans(g, h2, v, u);
                assert(mutual(g, u, h2));
            }
        }
    }
    assert forall|k: int, y: usize| 0 <= k < s1.len() && (#[trigger] s1[k]).1 && k != -1
        && #[trigger] g.edge(s1[k].0 as int, y as int) implies
        seen.contains(y) || exists|k2: int| k < k2 < s1.len() && #[trigger] s1[k2] == (y, false) by {
        assert(s1[k] == stack[k]);
        if !seen.contains(y) {
            let k2 = choose|k2: int| k < k2 < stack.len() && #[trigger] stack[k2] == (y, false);
            assert(k2 != top);
            assert(s1[k2] == (y, false));
        }
    }
}

/// Entering the node of the waiting entry on top of the stack keeps the
/// knowledge; none of its neighbours is covered yet.
pub(super) proof fn lemma_fo_enter(g: &DirectedGraph, stack: Seq<(usize, bool)>, order: Seq<usize>, seen: Seq<usize>, v: usize)
    requires
        fo_core(g, stack, order, seen),
        fo_cover_at(g, stack, seen, -1, 0),
        stack.len() > 0,
        stack.last() == (v, false),
    ensures
        fo_core(g, stack.drop_last().push((v, true)), order, seen.push(v)),
        fo_cover_at(g, stack.drop_last().push((v, true)), seen.push(v), stack.len() - 1, g.adj(v as int).len() as int),
{
    reveal(fo_above);
    reveal(fo_closed);
    reveal(fo_law);
    reveal(fo_cover);
    let s1 = stack.drop_last().push((v, true));
    let seen1 = seen.push(v);
    let t = stack.len() - 1;
    assert(stack[t] == (v, false));
    assert forall|x: usize| #[trigger] seen.contains(x) implies seen1.contains(x) by {
        lemma_push_contains(seen, v, x);
    }
    assert(seen1.contains(v)) by {
        lemma_push_contains(seen, v, v);
    }
    assert forall|k: int| 0 <= k < t implies #[trigger] s1[k] == stack[k] by {}
    assert forall|m: int, k: int| 0 <= m < k < s1.len() && (#[trigger] s1[m]).1 implies reaches(g, s1[m].0, (#[trigger] s1[k]).0) by {
        assert(s1[m] == stack[m]);
        if k < t {
            assert(s1[k] == stack[k]);
        } else {
            assert(s1[k].0 == stack[k].0);
        }
    }
    assert forall|h: usize| #[trigger] gray(stack, h) implies gray(s1, h) by {
        let k = choose|k: int| 0 <= k < stack.len() && stack[k] == (h, true);
        assert(k != t);
        assert(s1[k] == (h, true));
    }
    assert forall|u: usize, x: usize| order.contains(u) && #[trigger] reaches(g, u, x) implies
        no_later(order, x, u)
        || (exists|h: usize| #[trigger] mutual(g, u, h) && no_later(order, x, h))
        || (exists|h: usize| #[trigger] gray(s1, h) && mutual(g, u, h) && reaches(g, h, x)) by {
        if !no_later(order, x, u) && !(exists|h: usize| #[trigger] mutual(g, u, h) && no_later(order, x, h)) {
            let h = choose|h: usize| #[trigger] gray(stack, h) && mutual(g, u, h) && reaches(g, h, x);
            assert(gray(s1, h));
        }
    }
    assert forall|k: int, y: usize| 0 <= k < s1.len() && (#[trigger] s1[k]).1 && k != t
        && #[trigger] g.edge(s1[k].0 as int, y as int) implies
        seen1.contains(y) || exists|k2: int| k < k2 < s1.len() && #[trigger] s1[k2] == (y, false) by {
        assert(s1[k] == stack[k]);
        if !seen.contains(y) {
            let k2 = choose|k2: int| k < k2 < stack.len() && #[trigger] stack[k2] == (y, false);
            if k2 == t {
                assert(y == v);
            } else {
                assert(s1[k2] == (y, false));
            }
        }
    }
}

/// A neighbour already entered needs no entry.
pub(super) proof fn lemma_fo_pass(g: &DirectedGraph, stack: Seq<(usize, bool)>, seen: Seq<usize>, t: int, j: int)
    requires
        fo_cover_at(g, stack, seen, t, j),
        0 <= t < stack.len(),
        0 < j <= g.adj(stack[t].0 as int).len(),
        seen.contains(g.adj(stack[t].0 as int)[j - 1]),
    ensures
        fo_cover_at(g, stack, seen, t, j - 1),
{
    reveal(fo_cover);
}

/// Pushing a waiting entry for a neighbour of the entry at `t` keeps the
/// knowledge.
pub(super) proof fn lemma_fo_push(g: &DirectedGraph, stack: Seq<(usize, bool)>, order: Seq<usize>, seen: Seq<usize>, t: int, j: int)
    requires
        g.wf(),
        fo_core(g, stack, order, seen),
        fo_cover_at(g, stack, seen, t, j),
        0 <= t < stack.len(),
        stack[t].1,
        stack[t].0 < g.n(),
        forall|k: int| t < k < stack.len() ==> !(#[trigger] stack[k]).1,
        0 < j <= g.adj(stack[t].0 as int).len(),
    ensures
        fo_core(g, stack.push((g.adj(stack[t].0 as int)[j - 1], false)), order, seen),
        fo_cover_at(g, stack.push((g.adj(stack[t].0 as int)[j - 1], false)), seen, t, j - 1),
{
    reveal(fo_above);
    reveal(fo_closed);
    reveal(fo_law);
    reveal(fo_cover);
    let v = stack[t].0;
    let u = g.adj(v as int)[j - 1];
    let s1 = stack.push((u, false));
    assert(g.adj(v as int).contains(u));
    assert(g.edge(v as int, u as int));
    lemma_edge_reaches(g, v, u);
    assert forall|m: int, k: int| 0 <= m < k < s1.len() && (#[trigger] s1[m]).1 implies reaches(g, s1[m].0, (#[trigger] s1[k]).0) by {
        assert(s1[m] == stack[m]);
        if k < stack.len() {
            assert(s1[k] == stack[k]);
        } else {
            assert(m <= t);
            if m < t {
                assert(reaches(g, stack[m].0, stack[t].0));
                lemma_reaches_trans(g, stack[m].0, v, u);
            }
        }
    }
    assert forall|h: usize| #[trigger] gray(stack, h) implies gray(s1, h) by {
        let k = choose|k: int| 0 <= k < stack.len() && stack[k] == (h, true);
        assert(s1[k] == (h, true));
    }
    assert forall|u2: usize, x: usize| order.contains(u2) && #[trigger] reaches(g, u2, x) implies
        no_later(order, x, u2)
        || (exists|h: usize| #[trigger] mutual(g, u2, h) && no_later(order, x, h))
        || (exists|h: usize| #[trigger] gray(s1, h) && mutual(g, u2, h) && reaches(g, h, x)) by {
        if !no_later(order, x, u2) && !(exists|h: usize| #[trigger] mutual(g, u2, h) && no_later(order, x, h)) {
            let h = choose|h: usize| #[trigger] gray(stack, h) && mutual(g, u2, h) && reaches(g, h, x);
            assert(gray(s1, h));
        }
    }
    assert forall|k: int, y: usize| 0 <= k < s1.len() && (#[trigger] s1[k]).1 && k != t
        && #[trigger] g.edge(s1[k].0 as int, y as int) implies
        seen.contains(y) || exists|k2: int| k < k2 < s1.len() && #[trigger] s1[k2] == (y, false) by {
        assert(k < stack.len());
        assert(s1[k] == stack[k]);
        if !seen.contains(y) {
            let k2 = choose|k2: int| k < k2 < stack.len() && #[trigger] stack[k2] == (y, false);
            assert(s1[k2] == (y, false));
        }
    }
    assert forall|i: int| j - 1 <= i < g.adj(s1[t].0 as int).len() implies
        seen.contains(#[trigger] g.adj(s1[t].0 as int)[i])
        || exists|k2: int| t < k2 < s1.len() && #[trigger] s1[k2] == (g.adj(s1[t].0 as int)[i], false) by {
        assert(s1[t] == stack[t]);
        if i == j - 1 {
            assert(s1[stack.len() as int] == (u, false));
        } else if !seen.contains(g.adj(v as int)[i]) {
            let k2 = choose|k2: int| t < k2 < stack.len() && #[trigger] stack[k2] == (g.adj(stack[t].0 as int)[i], false);
            assert(s1[k2] == stack[k2]);
        }
    }
}

/// Once every neighbour of the entry at `t` is covered, the entry needs no
/// exception.
pub(super) proof fn lemma_fo_cover_done(g: &DirectedGraph, stack: Seq<(usize, bool)>, seen: Seq<usize>, t: int)
    requires
        fo_cover_at(g, stack, seen, t, 0),
        0 <= t < stack.len(),
    ensures
        fo_cover_at(g, stack, seen, -1, 0),
{
    reveal(fo_cover);
    assert forall|k: int, y: usize| 0 <= k < stack.len() && (#[trigger] stack[k]).1 && k != -1
        && #[trigger] g.edge(stack[k].0 as int, y as int) implies
        seen.contains(y) || exists|k2: int| k < k2 < stack.len() && #[trigger] stack[k2] == (y, false) by {
        if k == t {
            let i = choose|i: int| 0 <= i < g.adj(stack[t].0 as int).len() && g.adj(stack[t].0 as int)[i] == y;
            assert(seen.contains(g.adj(stack[t].0 as int)[i])
                || exists|k2: int| t < k2 < stack.len() && #[trigger] stack[k2] == (g.adj(stack[t].0 as int)[i], false));
        }
    }
}

/// When every search is over, the finishing order obeys the law.
pub(super) proof fn lemma_fo_end(g: &DirectedGraph, order: Seq<usize>, seen: Seq<usize>)
    requires
        fo_core(g, Seq::empty(), order, seen),
    ensures
        finish_law(g, order),
{
    reveal(fo_law);
    assert forall|u: usize, x: usize| order.contains(u) && #[trigger] reaches(g, u, x) implies
        no_later(order, x, u) || exists|h: usize| #[trigger] mutual(g, u, h) && no_later(order, x, h) by {
        if !no_later(order, x, u) && !(exists|h: usize| #[trigger] mutual(g, u, h) && no_later(order, x, h)) {
            let h = choose|h: usize| #[trigger] gray(Seq::<(usize, bool)>::empty(), h) && mutual(g, u, h) && reaches(g, h, x);
            assert(false);
        }
    }
}

/// A node in the strongly connected component of a node outside some exact
/// components is outside them too.
proof fn lemma_outside_parts(g: &DirectedGraph, parts: Seq<Seq<usize>>, s: usize, x: usize)
    requires
        forall|c: int| 0 <= c < parts.len() ==> is_component(g, #[trigger] parts[c]),
        !flat(parts).contains(s),
        reaches(g, x, s),
        reaches(g, s, x),
    ensures
        !flat(parts).contains(x),
{
    if flat(parts).contains(x) {
        let c = lemma_flat_member(parts, x);
        let i = choose|i: int| 0 <= i < parts[c].len() && parts[c][i] == x;
        assert(is_component(g, parts[c]));
        assert(reaches(g, parts[c][i], s));
        assert(parts[c].contains(s));
        let j = choose|j: int| 0 <= j < parts[c].len() && parts[c][j] == s;
        lemma_flat_contains(parts, c, j);
    }
}

/// Every entry of a walk into `c` that stays outside `f0` lies in `c`, when
/// `c` holds each predecessor of its members that is outside `f0`.
proof fn lemma_walk_in(g: &DirectedGraph, w: Seq<usize>, c: Seq<usize>, f0: Seq<usize>, i: int)
    requires
        is_walk(g, w),
        0 <= i < w.len(),
        c.contains(w.last()),
        forall|k: int| 0 <= k < w.len() ==> !f0.contains(#[trigger] w[k]),
        forall|x: usize, y: usize| c.contains(y) && #[trigger] g.edge(x as int, y as int) ==> f0.contains(x) || c.contains(x),
    ensures
        c.contains(w[i]),
    decreases w.len() - i,
{
    if i < w.len() - 1 {
        lemma_walk_in(g, w, c, f0, i + 1);
        assert(g.edge(w[i] as int, w[i + 1] as int));
    }
}

/// The nodes gathered from the latest unassigned node of a finishing order
/// by following edges backwards through unassigned nodes form a strongly
/// connected component.
#[verifier::rlimit(20)]
pub(super) proof fn lemma_gathered_component(
    g: &DirectedGraph,
    order: Seq<usize>,
    r: int,
    parts: Seq<Seq<usize>>,
    c: Seq<usize>,
)
    requires
        finish_law(g, order),
        order.no_duplicates(),
        forall|v: usize| v < g.n() ==> #[trigger] order.contains(v),
        0 <= r < order.len(),
        forall|cc: int| 0 <= cc < parts.len() ==> is_component(g, #[trigger] parts[cc]),
        forall|k: int| r < k < order.len() ==> flat(parts).contains(#[trigger] order[k]),
        c.contains(order[r]),
        forall|y: usize| #[trigger] c.contains(y) ==> !flat(parts).contains(y) && reaches(g, y, order[r]) && y < g.n(),
        forall|x: usize, y: usize| c.contains(y) && #[trigger] g.edge(x as int, y as int) ==> flat(parts).contains(x) || c.contains(x),
    ensures
        is_component(g, c),
{
    let s = order[r];
    let f0 = flat(parts);
    // the root reaches every member
    assert forall|y: usize| #[trigger] c.contains(y) implies reaches(g, s, y) by {
        assert(order.contains(y));
        assert(reaches(g, y, s));
        if no_later(order, s, y) {
            let (i, j) = choose|i: int, j: int| 0 <= i <= j < order.len() && order[i] == s && order[j] == y;
            assert(i == r);
            if j > r {
                assert(f0.contains(order[j]));
            }
            assert(y == s);
            lemma_reaches_self(g, s);
        } else {
            let h = choose|h: usize| #[trigger] mutual(g, y, h) && no_later(order, s, h);
            let (i, j) = choose|i: int, j: int| 0 <= i <= j < order.len() && order[i] == s && order[j] == h;
            assert(i == r);
            if j > r {
                assert(f0.contains(order[j]));
                lemma_outside_parts(g, parts, y, h);
                assert(false);
            }
            assert(h == s);
        }
    }
    assert forall|i: int, j: int| 0 <= i < c.len() && 0 <= j < c.len() implies reaches(g, #[trigger] c[i], #[trigger] c[j]) by {
        assert(c.contains(c[i]));
        assert(c.contains(c[j]));
        lemma_reaches_trans(g, c[i], s, c[j]);
    }
    assert forall|i: int, z: usize| 0 <= i < c.len() && #[trigger] reaches(g, c[i], z) && reaches(g, z, c[i]) implies c.contains(z) by {
        let y = c[i];
        assert(c.contains(y));
        assert(!f0.contains(s));
        lemma_reaches_trans(g, z, y, s);
        let w = choose|w: Seq<usize>| #[trigger] is_walk(g, w) && w[0] == z && w.last() == s;
        assert forall|k: int| 0 <= k < w.len() implies !f0.contains(#[trigger] w[k]) by {
            lemma_walk_reaches(g, w, k);
            lemma_reaches_trans(g, s, y, z);
            lemma_reaches_trans(g, s, z, w[k]);
            lemma_outside_parts(g, parts, s, w[k]);
        }
        lemma_walk_in(g, w, c, f0, 0);
    }
}

/// The component gathered from `order[r]` is a strongly connected
/// component, stated over what the gathering loop keeps.
pub(super) proof fn lemma_component_done(
    g: &DirectedGraph,
    order: Seq<usize>,
    r: int,
    parts: Seq<Seq<usize>>,
    scc: Seq<usize>,
    marked: Seq<usize>,
)
    requires
        finish_law(g, order),
        g.n() <= usize::MAX,
        order.no_duplicates(),
        order.len() == g.n(),
        forall|i: int| 0 <= i < order.len() ==> #[trigger] order[i] < g.n(),
        0 <= r < order.len(),
        forall|cc: int| 0 <= cc < parts.len() ==> is_component(g, #[trigger] parts[cc]),
        forall|k: int| r < k < order.len() ==> flat(parts).contains(#[trigger] order[k]),
        scc.len() > 0,
        scc[0] == order[r],
        (flat(parts) + scc).no_duplicates(),
        forall|x: usize| #[trigger] (flat(parts) + scc).contains(x) <==> marked.contains(x),
        forall|i: int| 0 <= i < marked.len() ==> #[trigger] marked[i] < g.n(),
        forall|k: int| 0 <= k < scc.len() ==> reaches(g, #[trigger] scc[k], order[r]),
        forall|y: usize, x: usize| #![trigger scc.contains(y), g.edge(x as int, y as int)]
            scc.contains(y) && g.edge(x as int, y as int) ==> marked.contains(x),
    ensures
        is_component(g, scc),
{
    let f0 = flat(parts);
    lemma_distinct_below(order, g.n() as nat);
    assert(scc.contains(order[r])) by {
        assert(scc[0] == order[r]);
    }
    assert forall|y: usize| #[trigger] scc.contains(y) implies !f0.contains(y) && reaches(g, y, order[r]) && y < g.n() by {
        let k = choose|k: int| 0 <= k < scc.len() && scc[k] == y;
        assert((f0 + scc)[f0.len() + k] == y);
        if f0.contains(y) {
            let i = choose|i: int| 0 <= i < f0.len() && f0[i] == y;
            assert((f0 + scc)[i] == y);
        }
        lemma_concat_contains(f0, scc, y);
        let m = choose|m: int| 0 <= m < marked.len() && marked[m] == y;
    }
    assert forall|x: usize, y: usize| scc.contains(y) && #[trigger] g.edge(x as int, y as int) implies
        f0.contains(x) || scc.contains(x) by {
        assert(marked.contains(x));
        lemma_concat_contains(f0, scc, x);
    }
    lemma_gathered_component(g, order, r, parts, scc);
}

/// Every edge into the component gathered last comes from it or from a
/// component gathered before it.
pub(super) proof fn lemma_preds_before(
    g: &DirectedGraph,
    parts: Seq<Seq<usize>>,
    scc: Seq<usize>,
    marked: Seq<usize>,
)
    requires
        forall|x: usize| #[trigger] (flat(parts) + scc).contains(x) <==> marked.contains(x),
        forall|y: usize, x: usize| #![trigger scc.contains(y), g.edge(x as int, y as int)]
            scc.contains(y) && g.edge(x as int, y as int) ==> marked.contains(x),
    ensures
        forall|i: int, x: usize| 0 <= i < scc.len() && #[trigger] g.edge(x as int, scc[i] as int) ==>
            exists|c2: int| 0 <= c2 <= parts.len() && #[trigger] parts.push(scc)[c2].contains(x),
{
    assert forall|i: int, x: usize| 0 <= i < scc.len() && #[trigger] g.edge(x as int, scc[i] as int) implies
        exists|c2: int| 0 <= c2 <= parts.len() && #[trigger] parts.push(scc)[c2].contains(x) by {
        assert(scc.contains(scc[i]));
        assert(marked.contains(x));
        lemma_concat_contains(flat(parts), scc, x);
        if flat(parts).contains(x) {
            let c2 = lemma_flat_member(parts, x);
            assert(parts.push(scc)[c2] == parts[c2]);
        } else {
            assert(parts.push(scc)[parts.len() as int] == scc);
        }
    }
}

} // verus!
