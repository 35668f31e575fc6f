//! The order in which the first pass of Kosaraju's algorithm enters and
//! finishes the nodes: its stack read as the pending calls of a depth-first
//! search.

use vstd::prelude::*;

use super::kosaraju_inv::gray;
use crate::graph::depth_first::{
    descends, discovery_entry, entered_from, entry_source, finishes_before, first_unlisted, has_unlisted,
    lemma_descends_extend, lemma_entered_from_source, lemma_entered_from_start, lemma_unlisted_grow, walk_done,
};
use crate::model::DirectedGraph;

verus! {

/// The entry at `k` of the stack lies in the segment of the marker at `m`:
/// `m` is below `k`, marks an entered node, and no marker stands between.
pub(super) open spec fn owned_by(stack: Seq<(usize, bool)>, k: int, m: int) -> bool {
    &&& 0 <= m < k < stack.len()
    &&& stack[m].1
    &&& forall|m2: int| m < m2 < k ==> !(#[trigger] stack[m2]).1
}

/// Each entered node is the one a depth-first search enters next, and a
/// node no longer marked on the stack has all its out-neighbours entered.
#[verifier::opaque]
pub(super) open spec fn ko_disc(g: &DirectedGraph, stack: Seq<(usize, bool)>, seen: Seq<usize>) -> bool {
    &&& forall|k: int| 0 <= k < seen.len() ==> #[trigger] discovery_entry(g, seen.take(k), seen[k])
    &&& forall|k: int| 0 <= k < seen.len() ==> gray(stack, seen[k]) || !has_unlisted(g, seen, #[trigger] seen[k])
}

/// The markers stand in the order their nodes were entered; above a marker
/// wait out-neighbours of its node, the first of them on top.
#[verifier::opaque]
pub(super) open spec fn ko_marks(g: &DirectedGraph, stack: Seq<(usize, bool)>, seen: Seq<usize>) -> bool {
    &&& forall|a: int, b: int| 0 <= a < b < stack.len() && (#[trigger] stack[a]).1 && (#[trigger] stack[b]).1 ==>
        seen.index_of(stack[a].0) < seen.index_of(stack[b].0)
    &&& forall|k: int, m: int| #[trigger] owned_by(stack, k, m) && !stack[k].1 ==>
        g.adj(stack[m].0 as int).contains(stack[k].0)
    &&& forall|k1: int, k2: int, m: int| #[trigger] owned_by(stack, k1, m) && #[trigger] owned_by(stack, k2, m)
        && k1 < k2 && !stack[k1].1 && !stack[k2].1 ==>
        g.adj(stack[m].0 as int).index_of(stack[k1].0) > g.adj(stack[m].0 as int).index_of(stack[k2].0)
}

/// Every out-neighbour of a marked node has been entered or waits in the
/// marker's segment; for the marker at `mt`, only those from the `jt`-th on
/// so far.
#[verifier::opaque]
pub(super) open spec fn ko_cover(g: &DirectedGraph, stack: Seq<(usize, bool)>, seen: Seq<usize>, mt: int, jt: int) -> bool {
    forall|m: int, t: int| 0 <= m < stack.len() && (#[trigger] stack[m]).1 && 0 <= t < g.adj(stack[m].0 as int).len()
        && (m != mt || t >= jt) ==>
        seen.contains(#[trigger] g.adj(stack[m].0 as int)[t])
        || exists|k: int| #[trigger] owned_by(stack, k, m) && !stack[k].1 && stack[k].0 == g.adj(stack[m].0 as int)[t]
}

/// An entry with no marker below is the start of the search, alone on the
/// stack: the least node not entered, when every entered node is finished.
#[verifier::opaque]
pub(super) open spec fn ko_begin(g: &DirectedGraph, start_v: usize, stack: Seq<(usize, bool)>, seen: Seq<usize>) -> bool {
    &&& forall|k: int| 0 <= k < stack.len() && !(#[trigger] stack[k]).1 ==>
        (exists|m: int| #[trigger] owned_by(stack, k, m)) || (stack == seq![(start_v, false)] && !seen.contains(start_v))
    &&& stack == seq![(start_v, false)] && !seen.contains(start_v) ==>
        walk_done(g, seen) && start_v < g.n() && forall|z: usize| z < start_v ==> #[trigger] seen.contains(z)
}

/// Each marked node was entered from the marked node below it, the lowest
/// from none, and every node entered after a marked node descends from it.
#[verifier::opaque]
pub(super) open spec fn ko_tree(g: &DirectedGraph, stack: Seq<(usize, bool)>, seen: Seq<usize>) -> bool {
    &&& forall|b: int, a: int| #[trigger] owned_by(stack, b, a) && stack[b].1 ==>
        entered_from(g, seen.take(seen.index_of(stack[b].0)), stack[b].0) == seen.index_of(stack[a].0)
    &&& forall|b: int| 0 <= b < stack.len() && (#[trigger] stack[b]).1 && (forall|a: int| 0 <= a < b ==> !stack[a].1) ==>
        entered_from(g, seen.take(seen.index_of(stack[b].0)), stack[b].0) == -1
    &&& forall|a: int, i: int| 0 <= a < stack.len() && (#[trigger] stack[a]).1 && seen.index_of(stack[a].0) < i < seen.len() ==>
        #[trigger] descends(g, seen, i, seen.index_of(stack[a].0))
}

/// The nodes finished stand in the order the search finishes them.
#[verifier::opaque]
pub(super) open spec fn ko_fin(g: &DirectedGraph, order: Seq<usize>, seen: Seq<usize>) -> bool {
    forall|i: int, j: int, p: int, q: int| #![trigger order[i], order[j], seen[p], seen[q]]
        0 <= i < j < order.len() && 0 <= p < seen.len() && 0 <= q < seen.len() && seen[p] == order[i] && seen[q] == order[j]
        ==> finishes_before(g, seen, p, q)
}

/// What the first pass keeps of the order in which it enters and finishes
/// nodes.
pub(super) open spec fn ko_inv(
    g: &DirectedGraph,
    start_v: usize,
    stack: Seq<(usize, bool)>,
    order: Seq<usize>,
    seen: Seq<usize>,
    mt: int,
    jt: int,
) -> bool {
    &&& ko_disc(g, stack, seen)
    &&& ko_marks(g, stack, seen)
    &&& ko_cover(g, stack, seen, mt, jt)
    &&& ko_begin(g, start_v, stack, seen)
    &&& ko_tree(g, stack, seen)
    &&& ko_fin(g, order, seen)
}

/// Starting a search from `start_v`, the least node not entered, when no
/// search is under way.
pub(super) proof fn lemma_ko_start(g: &DirectedGraph, start_v: usize, order: Seq<usize>, seen: Seq<usize>)
    requires
        ko_inv(g, start_v, Seq::empty(), order, seen, -1, 0),
        start_v < g.n(),
        !seen.contains(start_v),
        forall|z: usize| z < start_v ==> #[trigger] seen.contains(z),
    ensures
        ko_inv(g, start_v, seq![(start_v, false)], order, seen, -1, 0),
{
    let s0 = Seq::<(usize, bool)>::empty();
    let s1 = seq![(start_v, false)];
    assert forall|x: usize| !gray(s0, x) && !gray(s1, x) by {
        if gray(s1, x) {
            let k = choose|k: int| 0 <= k < s1.len() && s1[k] == (x, true);
        }
    }
    reveal(ko_disc);
    assert forall|k: int| 0 <= k < seen.len() implies !has_unlisted(g, seen, #[trigger] seen[k]) by {
        assert(!gray(s0, seen[k]));
    }
    assert(ko_marks(g, s1, seen)) by { reveal(ko_marks); }
    assert(ko_cover(g, s1, seen, -1, 0)) by { reveal(ko_cover); }
    assert(ko_begin(g, start_v, s1, seen)) by { reveal(ko_begin); }
    assert(ko_tree(g, s1, seen)) by { reveal(ko_tree); }
}

/// Segments below the top keep their markers when the top entry goes.
proof fn lemma_owned_drop(s0: Seq<(usize, bool)>)
    requires
        s0.len() > 0,
    ensures
        forall|k: int, m: int| #[trigger] owned_by(s0.drop_last(), k, m) <==> (k < s0.len() - 1 && owned_by(s0, k, m)),
{
    let s1 = s0.drop_last();
    assert forall|k: int, m: int| #[trigger] owned_by(s1, k, m) <==> (k < s0.len() - 1 && owned_by(s0, k, m)) by {
        if owned_by(s1, k, m) {
            assert(s1[m] == s0[m]);
            assert forall|m2: int| m < m2 < k implies !(#[trigger] s0[m2]).1 by {
                assert(s1[m2] == s0[m2]);
            }
        }
        if k < s0.len() - 1 && owned_by(s0, k, m) {
            assert(s1[m] == s0[m]);
            assert forall|m2: int| m < m2 < k implies !(#[trigger] s1[m2]).1 by {
                assert(s1[m2] == s0[m2]);
            }
        }
    }
}

/// Dropping a waiting entry whose node has been entered meanwhile.
pub(super) proof fn lemma_ko_skip(g: &DirectedGraph, start_v: usize, s0: Seq<(usize, bool)>, order: Seq<usize>, seen: Seq<usize>)
    requires
        ko_inv(g, start_v, s0, order, seen, -1, 0),
        s0.len() > 0,
        !s0.last().1,
        seen.contains(s0.last().0),
    ensures
        ko_inv(g, start_v, s0.drop_last(), order, seen, -1, 0),
{
    let s1 = s0.drop_last();
    let top = s0.len() - 1;
    assert(s0[top] == s0.last());
    lemma_owned_drop(s0);
    assert(forall|k: int| 0 <= k < s1.len() ==> #[trigger] s1[k] == s0[k]);
    assert forall|x: usize| gray(s0, x) <==> gray(s1, x) by {
        if gray(s0, x) {
            let k = choose|k: int| 0 <= k < s0.len() && s0[k] == (x, true);
            assert(k != top);
            assert(s1[k] == (x, true));
        }
        if gray(s1, x) {
            let k = choose|k: int| 0 <= k < s1.len() && s1[k] == (x, true);
            assert(s0[k] == (x, true));
        }
    }
    assert(ko_disc(g, s1, seen)) by {
        reveal(ko_disc);
        assert forall|k: int| 0 <= k < seen.len() implies gray(s1, seen[k]) || !has_unlisted(g, seen, #[trigger] seen[k]) by {
            assert(gray(s0, seen[k]) || !has_unlisted(g, seen, seen[k]));
        }
    }
    assert(ko_marks(g, s1, seen)) by {
        reveal(ko_marks);
        assert forall|a: int, b: int| 0 <= a < b < s1.len() && (#[trigger] s1[a]).1 && (#[trigger] s1[b]).1 implies
            seen.index_of(s1[a].0) < seen.index_of(s1[b].0) by {
            assert(s0[a].1 && s0[b].1);
        }
        assert forall|k: int, m: int| #[trigger] owned_by(s1, k, m) && !s1[k].1 implies g.adj(s1[m].0 as int).contains(s1[k].0) by {
            assert(owned_by(s0, k, m));
        }
        assert forall|k1: int, k2: int, m: int| #[trigger] owned_by(s1, k1, m) && #[trigger] owned_by(s1, k2, m)
            && k1 < k2 && !s1[k1].1 && !s1[k2].1 implies
            g.adj(s1[m].0 as int).index_of(s1[k1].0) > g.adj(s1[m].0 as int).index_of(s1[k2].0) by {
            assert(owned_by(s0, k1, m) && owned_by(s0, k2, m));
        }
    }
    assert(ko_cover(g, s1, seen, -1, 0)) by {
        reveal(ko_cover);
        assert forall|m: int, t: int| 0 <= m < s1.len() && (#[trigger] s1[m]).1 && 0 <= t < g.adj(s1[m].0 as int).len()
            && (m != -1 || t >= 0) implies
            seen.contains(#[trigger] g.adj(s1[m].0 as int)[t])
            || exists|k: int| #[trigger] owned_by(s1, k, m) && !s1[k].1 && s1[k].0 == g.adj(s1[m].0 as int)[t] by {
            assert(s0[m] == s1[m] && s0[m].1);
            if !seen.contains(g.adj(s1[m].0 as int)[t]) {
                let k = choose|k: int| #[trigger] owned_by(s0, k, m) && !s0[k].1 && s0[k].0 == g.adj(s0[m].0 as int)[t];
                assert(k != top);
                assert(owned_by(s1, k, m));
            }
        }
    }
    assert(ko_begin(g, start_v, s1, seen)) by {
        reveal(ko_begin);
        assert forall|k: int| 0 <= k < s1.len() && !(#[trigger] s1[k]).1 implies
            (exists|m: int| #[trigger] owned_by(s1, k, m)) || (s1 == seq![(start_v, false)] && !seen.contains(start_v)) by {
            assert(!s0[k].1);
            if exists|m: int| #[trigger] owned_by(s0, k, m) {
                let m = choose|m: int| #[trigger] owned_by(s0, k, m);
                assert(owned_by(s1, k, m));
            } else {
                assert(s0 == seq![(start_v, false)]);
                assert(s0.last().0 == start_v);
            }
        }
        if s1 == seq![(start_v, false)] && !seen.contains(start_v) {
            assert(s1[0] == (start_v, false));
            assert(s0[0] == s1[0]);
            assert(!s0[0].1);
            if exists|m: int| #[trigger] owned_by(s0, 0, m) {
                let m = choose|m: int| #[trigger] owned_by(s0, 0, m);
            }
            assert(s0 == seq![(start_v, false)]);
            assert(s0.len() == 1);
        }
    }
    assert(ko_tree(g, s1, seen)) by {
        reveal(ko_tree);
        assert forall|b: int, a: int| #[trigger] owned_by(s1, b, a) && s1[b].1 implies
            entered_from(g, seen.take(seen.index_of(s1[b].0)), s1[b].0) == seen.index_of(s1[a].0) by {
            assert(owned_by(s0, b, a));
        }
        assert forall|b: int| 0 <= b < s1.len() && (#[trigger] s1[b]).1 && (forall|a: int| 0 <= a < b ==> !s1[a].1) implies
            entered_from(g, seen.take(seen.index_of(s1[b].0)), s1[b].0) == -1 by {
            assert(s0[b].1);
            assert forall|a: int| 0 <= a < b implies !s0[a].1 by { assert(s1[a] == s0[a]); }
        }
        assert forall|a: int, i: int| 0 <= a < s1.len() && (#[trigger] s1[a]).1 && seen.index_of(s1[a].0) < i < seen.len() implies
            #[trigger] descends(g, seen, i, seen.index_of(s1[a].0)) by {
            assert(s0[a].1);
        }
    }
}

/// The facts of the first pass that the order invariant builds on.
pub(super) open spec fn ko_basic(g: &DirectedGraph, stack: Seq<(usize, bool)>, order: Seq<usize>, seen: Seq<usize>) -> bool {
    &&& g.wf()
    &&& seen.no_duplicates()
    &&& forall|k: int| 0 <= k < seen.len() ==> #[trigger] seen[k] < g.n()
    &&& forall|k: int| 0 <= k < stack.len() ==> (#[trigger] stack[k]).0 < g.n()
    &&& forall|k: int| 0 <= k < stack.len() && (#[trigger] stack[k]).1 ==> seen.contains(stack[k].0) && !order.contains(stack[k].0)
    &&& forall|a: int, b: int| 0 <= a < b < stack.len() && (#[trigger] stack[a]).1 && (#[trigger] stack[b]).1 ==> stack[a].0 != stack[b].0
    &&& forall|v: usize| #[trigger] order.contains(v) ==> seen.contains(v)
}

/// The nearest marker below `k`, or -1 when there is none.
proof fn lemma_nearest_marker(stack: Seq<(usize, bool)>, k: int) -> (m: int)
    requires
        0 <= k < stack.len(),
    ensures
        m == -1 ==> forall|a: int| 0 <= a < k ==> !(#[trigger] stack[a]).1,
        m != -1 ==> owned_by(stack, k, m),
    decreases k,
{
    if k == 0 {
        -1
    } else if stack[k - 1].1 {
        k - 1
    } else {
        let m = lemma_nearest_marker(stack, k - 1);
        if m != -1 {
            assert forall|m2: int| m < m2 < k implies !(#[trigger] stack[m2]).1 by {
                if m2 < k - 1 {
                    assert(owned_by(stack, k - 1, m));
                }
            }
        }
        m
    }
}

/// A node above which a marked node descends is itself marked, at or below it.
proof fn lemma_marker_ancestors(g: &DirectedGraph, stack: Seq<(usize, bool)>, seen: Seq<usize>, b: int, p: int)
    requires
        ko_tree(g, stack, seen),
        0 <= b < stack.len(),
        stack[b].1,
        0 <= seen.index_of(stack[b].0) < seen.len(),
        seen[seen.index_of(stack[b].0)] == stack[b].0,
        forall|a: int| 0 <= a < stack.len() && (#[trigger] stack[a]).1 ==>
            0 <= seen.index_of(stack[a].0) < seen.len() && seen[seen.index_of(stack[a].0)] == stack[a].0,
        descends(g, seen, seen.index_of(stack[b].0), p),
    ensures
        exists|a: int| 0 <= a <= b && (#[trigger] stack[a]).1 && seen.index_of(stack[a].0) == p,
    decreases b,
{
    reveal(ko_tree);
    let pb = seen.index_of(stack[b].0);
    if pb <= p {
        assert(pb == p);
    } else {
        let m = lemma_nearest_marker(stack, b);
        if m == -1 {
            assert(entered_from(g, seen.take(pb), stack[b].0) == -1);
        } else {
            assert(entered_from(g, seen.take(pb), stack[b].0) == seen.index_of(stack[m].0));
            assert(stack[m].1);
            lemma_marker_ancestors(g, stack, seen, m, p);
            let a = choose|a: int| 0 <= a <= m && (#[trigger] stack[a]).1 && seen.index_of(stack[a].0) == p;
        }
    }
}

/// Each marked node stands in the order of entry at its position.
proof fn lemma_marker_positions(g: &DirectedGraph, stack: Seq<(usize, bool)>, order: Seq<usize>, seen: Seq<usize>)
    requires
        ko_basic(g, stack, order, seen),
    ensures
        forall|a: int| 0 <= a < stack.len() && (#[trigger] stack[a]).1 ==>
            0 <= seen.index_of(stack[a].0) < seen.len() && seen[seen.index_of(stack[a].0)] == stack[a].0,
{
    assert forall|a: int| 0 <= a < stack.len() && (#[trigger] stack[a]).1 implies
        0 <= seen.index_of(stack[a].0) < seen.len() && seen[seen.index_of(stack[a].0)] == stack[a].0 by {
        assert(seen.contains(stack[a].0));
    }
}

/// Finishing the node marked on top of the stack.
pub(super) proof fn lemma_ko_finish(g: &DirectedGraph, start_v: usize, s0: Seq<(usize, bool)>, order: Seq<usize>, seen: Seq<usize>)
    requires
        ko_inv(g, start_v, s0, order, seen, -1, 0),
        ko_basic(g, s0, order, seen),
        s0.len() > 0,
        s0.last().1,
    ensures
        ko_inv(g, start_v, s0.drop_last(), order.push(s0.last().0), seen, -1, 0),
{
    let s1 = s0.drop_last();
    let top = s0.len() - 1;
    let v = s0.last().0;
    let o1 = order.push(v);
    assert(s0[top] == s0.last());
    lemma_owned_drop(s0);
    lemma_marker_positions(g, s0, order, seen);
    assert(forall|k: int| 0 <= k < s1.len() ==> #[trigger] s1[k] == s0[k]);
    assert forall|x: usize| gray(s1, x) <==> (gray(s0, x) && x != v) by {
        if gray(s0, x) && x != v {
            let k = choose|k: int| 0 <= k < s0.len() && s0[k] == (x, true);
            assert(k != top);
            assert(s1[k] == (x, true));
        }
        if gray(s1, x) {
            let k = choose|k: int| 0 <= k < s1.len() && s1[k] == (x, true);
            assert(s0[k] == (x, true));
            assert(s0[k].0 != s0[top].0);
        }
    }
    assert(!has_unlisted(g, seen, v)) by {
        reveal(ko_cover);
        assert forall|t: int| 0 <= t < g.adj(v as int).len() implies seen.contains(#[trigger] g.adj(v as int)[t]) by {
            assert(s0[top].1);
            if !seen.contains(g.adj(s0[top].0 as int)[t]) {
                let k = choose|k: int| #[trigger] owned_by(s0, k, top) && !s0[k].1 && s0[k].0 == g.adj(s0[top].0 as int)[t];
            }
        }
    }
    assert(ko_disc(g, s1, seen)) by {
        reveal(ko_disc);
        assert forall|k: int| 0 <= k < seen.len() implies gray(s1, seen[k]) || !has_unlisted(g, seen, #[trigger] seen[k]) by {
            assert(gray(s0, seen[k]) || !has_unlisted(g, seen, seen[k]));
        }
    }
    assert(ko_marks(g, s1, seen)) by {
        reveal(ko_marks);
        assert forall|a: int, b: int| 0 <= a < b < s1.len() && (#[trigger] s1[a]).1 && (#[trigger] s1[b]).1 implies
            seen.index_of(s1[a].0) < seen.index_of(s1[b].0) by {
            assert(s0[a].1 && s0[b].1);
        }
        assert forall|k: int, m: int| #[trigger] owned_by(s1, k, m) && !s1[k].1 implies g.adj(s1[m].0 as int).contains(s1[k].0) by {
            assert(owned_by(s0, k, m));
        }
        assert forall|k1: int, k2: int, m: int| #[trigger] owned_by(s1, k1, m) && #[trigger] owned_by(s1, k2, m)
            && k1 < k2 && !s1[k1].1 && !s1[k2].1 implies
            g.adj(s1[m].0 as int).index_of(s1[k1].0) > g.adj(s1[m].0 as int).index_of(s1[k2].0) by {
            assert(owned_by(s0, k1, m) && owned_by(s0, k2, m));
        }
    }
    assert(ko_cover(g, s1, seen, -1, 0)) by {
        reveal(ko_cover);
        assert forall|m: int, t: int| 0 <= m < s1.len() && (#[trigger] s1[m]).1 && 0 <= t < g.adj(s1[m].0 as int).len()
            && (m != -1 || t >= 0) implies
            seen.contains(#[trigger] g.adj(s1[m].0 as int)[t])
            || exists|k: int| #[trigger] owned_by(s1, k, m) && !s1[k].1 && s1[k].0 == g.adj(s1[m].0 as int)[t] by {
            assert(s0[m] == s1[m] && s0[m].1);
            if !seen.contains(g.adj(s1[m].0 as int)[t]) {
                let k = choose|k: int| #[trigger] owned_by(s0, k, m) && !s0[k].1 && s0[k].0 == g.adj(s0[m].0 as int)[t];
                assert(k != top);
                assert(owned_by(s1, k, m));
            }
        }
    }
    assert(ko_begin(g, start_v, s1, seen)) by {
        reveal(ko_begin);
        assert(s0 != seq![(start_v, false)]) by {
            if s0 == seq![(start_v, false)] {
                assert(s0[0] == (start_v, false));
            }
        }
        assert forall|k: int| 0 <= k < s1.len() && !(#[trigger] s1[k]).1 implies
            (exists|m: int| #[trigger] owned_by(s1, k, m)) || (s1 == seq![(start_v, false)] && !seen.contains(start_v)) by {
            assert(!s0[k].1);
            let m = choose|m: int| #[trigger] owned_by(s0, k, m);
            assert(owned_by(s1, k, m));
        }
        if s1 == seq![(start_v, false)] && !seen.contains(start_v) {
            assert(s1[0] == (start_v, false));
            assert(s0[0] == s1[0]);
            let m = choose|m: int| #[trigger] owned_by(s0, 0, m);
        }
    }
    assert(ko_tree(g, s1, seen)) by {
        reveal(ko_tree);
        assert forall|b: int, a: int| #[trigger] owned_by(s1, b, a) && s1[b].1 implies
            entered_from(g, seen.take(seen.index_of(s1[b].0)), s1[b].0) == seen.index_of(s1[a].0) by {
            assert(owned_by(s0, b, a));
        }
        assert forall|b: int| 0 <= b < s1.len() && (#[trigger] s1[b]).1 && (forall|a: int| 0 <= a < b ==> !s1[a].1) implies
            entered_from(g, seen.take(seen.index_of(s1[b].0)), s1[b].0) == -1 by {
            assert(s0[b].1);
            assert forall|a: int| 0 <= a < b implies !s0[a].1 by { assert(s1[a] == s0[a]); }
        }
        assert forall|a: int, i: int| 0 <= a < s1.len() && (#[trigger] s1[a]).1 && seen.index_of(s1[a].0) < i < seen.len() implies
            #[trigger] descends(g, seen, i, seen.index_of(s1[a].0)) by {
            assert(s0[a].1);
        }
    }
    assert(ko_fin(g, o1, seen)) by {
        reveal(ko_fin);
        let q = seen.index_of(v);
        assert(s0[top].1);
        assert(0 <= q < seen.len() && seen[q] == v);
        assert forall|i: int, j: int, p: int, q2: int| #![trigger o1[i], o1[j], seen[p], seen[q2]]
            0 <= i < j < o1.len() && 0 <= p < seen.len() && 0 <= q2 < seen.len() && seen[p] == o1[i] && seen[q2] == o1[j]
            implies finishes_before(g, seen, p, q2) by {
            assert(o1[i] == order[i]);
            if j < order.len() {
                assert(o1[j] == order[j]);
            } else {
                assert(o1[j] == v);
                crate::graph::scc::kosaraju_order::lemma_index_of(seen, q2);
                assert(q2 == q);
                let x = order[i];
                assert(order.contains(x));
                assert(x != v);
                if p > q {
                    reveal(ko_tree);
                    assert(seen.index_of(s0[top].0) == q);
                    assert(descends(g, seen, p, seen.index_of(s0[top].0)));
                } else {
                    assert(p != q);
                    if descends(g, seen, q, p) {
                        lemma_marker_ancestors(g, s0, seen, top, p);
                        let a = choose|a: int| 0 <= a <= top && (#[trigger] s0[a]).1 && seen.index_of(s0[a].0) == p;
                        assert(seen[p] == s0[a].0);
                        assert(!order.contains(s0[a].0));
                    }
                }
            }
        }
    }
}

/// A node of a sequence without repeats stands at its position.
pub(super) proof fn lemma_index_of(s: Seq<usize>, i: int)
    requires
        s.no_duplicates(),
        0 <= i < s.len(),
    ensures
        s.index_of(s[i]) == i,
{
    assert(s[i] == s[i]);
    let j = s.index_of(s[i]);
    assert(0 <= j < s.len() && s[j] == s[i]);
}

/// The top entry, not yet entered, is the next node of a depth-first search.
proof fn lemma_enter_next(g: &DirectedGraph, start_v: usize, s0: Seq<(usize, bool)>, order: Seq<usize>, seen: Seq<usize>)
    requires
        ko_inv(g, start_v, s0, order, seen, -1, 0),
        ko_basic(g, s0, order, seen),
        s0.len() > 0,
        !s0.last().1,
        !seen.contains(s0.last().0),
    ensures
        discovery_entry(g, seen, s0.last().0),
        forall|m: int| #[trigger] owned_by(s0, s0.len() - 1, m) ==> entry_source(g, seen, s0.last().0, seen.index_of(s0[m].0)),
        (forall|m: int| !#[trigger] owned_by(s0, s0.len() - 1, m)) ==> s0 == seq![(start_v, false)] && walk_done(g, seen),
{
    let top = s0.len() - 1;
    let u = s0.last().0;
    assert(s0[top] == s0.last());
    lemma_marker_positions(g, s0, order, seen);
    reveal(ko_begin);
    assert(!s0[top].1);
    if exists|m: int| #[trigger] owned_by(s0, top, m) {
        let m = choose|m: int| #[trigger] owned_by(s0, top, m);
        assert forall|m2: int| #[trigger] owned_by(s0, top, m2) implies m2 == m by {
            if m2 < m {
                assert(s0[m].1);
            } else if m < m2 {
                assert(s0[m2].1);
            }
        }
        let v = s0[m].0;
        let pv = seen.index_of(v);
        assert(s0[m].1);
        assert(0 <= pv < seen.len() && seen[pv] == v);
        let adj = g.adj(v as int);
        assert(adj.contains(u)) by { reveal(ko_marks); }
        let tu = adj.index_of(u);
        assert(0 <= tu < adj.len() && adj[tu] == u);
        assert(adj.no_duplicates());
        assert forall|t: int| 0 <= t < tu implies seen.contains(#[trigger] adj[t]) by {
            reveal(ko_cover);
            reveal(ko_marks);
            if !seen.contains(adj[t]) {
                let k = choose|k: int| #[trigger] owned_by(s0, k, m) && !s0[k].1 && s0[k].0 == g.adj(s0[m].0 as int)[t];
                assert(adj[t] != u);
                assert(k != top);
                assert(k < top);
                assert(adj.index_of(s0[k].0) > adj.index_of(s0[top].0));
                crate::graph::scc::kosaraju_order::lemma_index_of(adj, t);
            }
        }
        assert(first_unlisted(g, seen, seen[pv], u));
        assert forall|j2: int| pv < j2 < seen.len() implies !has_unlisted(g, seen, #[trigger] seen[j2]) by {
            reveal(ko_disc);
            if gray(s0, seen[j2]) {
                let a = choose|a: int| 0 <= a < s0.len() && s0[a] == (seen[j2], true);
                assert(s0[a].1);
                lemma_index_of(seen, j2);
                assert(seen.index_of(s0[a].0) == j2);
                if a > m {
                    assert(a != top);
                    assert(!s0[a].1);
                } else if a < m {
                    reveal(ko_marks);
                    assert(seen.index_of(s0[a].0) < seen.index_of(s0[m].0));
                }
            }
        }
        assert(entry_source(g, seen, u, pv));
        assert(discovery_entry(g, seen, u));
    } else {
        assert(s0 == seq![(start_v, false)] && !seen.contains(start_v));
        assert(u == start_v) by { assert(s0[0] == (start_v, false)); }
    }
}

/// Positions in the order of entry stay when a new node is entered.
proof fn lemma_index_push(seen: Seq<usize>, u: usize)
    requires
        seen.no_duplicates(),
        !seen.contains(u),
    ensures
        seen.push(u).no_duplicates(),
        seen.push(u).index_of(u) == seen.len(),
        forall|x: usize| #[trigger] seen.contains(x) ==> seen.push(u).index_of(x) == seen.index_of(x)
            && 0 <= seen.index_of(x) < seen.len() && seen[seen.index_of(x)] == x,
{
    let s1 = seen.push(u);
    assert forall|a: int, b: int| 0 <= a < b < s1.len() implies s1[a] != s1[b] by {
        if b == seen.len() {
            assert(s1[a] == seen[a]);
            assert(seen.contains(seen[a]));
        }
    }
    assert(s1[seen.len() as int] == u);
    lemma_index_of(s1, seen.len() as int);
    assert forall|x: usize| #[trigger] seen.contains(x) implies s1.index_of(x) == seen.index_of(x)
        && 0 <= seen.index_of(x) < seen.len() && seen[seen.index_of(x)] == x by {
        let p = seen.index_of(x);
        assert(s1[p] == x);
        lemma_index_of(s1, p);
    }
}

/// Entering the node waiting on top of the stack and marking it.
pub(super) proof fn lemma_ko_enter(g: &DirectedGraph, start_v: usize, s0: Seq<(usize, bool)>, order: Seq<usize>, seen: Seq<usize>)
    requires
        ko_inv(g, start_v, s0, order, seen, -1, 0),
        ko_basic(g, s0, order, seen),
        s0.len() > 0,
        !s0.last().1,
        !seen.contains(s0.last().0),
    ensures
        ko_inv(g, start_v, s0.drop_last().push((s0.last().0, true)), order, seen.push(s0.last().0),
            s0.len() - 1, g.adj(s0.last().0 as int).len() as int),
{
    let top = s0.len() - 1;
    let u = s0.last().0;
    let s1 = s0.drop_last().push((u, true));
    let seen1 = seen.push(u);
    assert(s0[top] == s0.last());
    lemma_enter_next(g, start_v, s0, order, seen);
    lemma_index_push(seen, u);
    lemma_marker_positions(g, s0, order, seen);
    assert(forall|k: int| 0 <= k < top ==> #[trigger] s1[k] == s0[k]);
    assert(s1[top] == (u, true));
    assert forall|k: int, m: int| #[trigger] owned_by(s1, k, m) <==> owned_by(s0, k, m) by {
        if owned_by(s1, k, m) {
            assert(s0[m] == s1[m]);
            assert forall|m2: int| m < m2 < k implies !(#[trigger] s0[m2]).1 by { assert(s1[m2] == s0[m2]); }
        }
        if owned_by(s0, k, m) {
            assert(s1[m] == s0[m]);
            assert forall|m2: int| m < m2 < k implies !(#[trigger] s1[m2]).1 by { assert(s1[m2] == s0[m2]); }
        }
    }
    assert forall|x: usize| gray(s1, x) <==> (gray(s0, x) || x == u) by {
        if gray(s0, x) {
            let k = choose|k: int| 0 <= k < s0.len() && s0[k] == (x, true);
            assert(k != top);
            assert(s1[k] == (x, true));
        }
        if x == u {
            assert(s1[top] == (x, true));
        }
        if gray(s1, x) {
            let k = choose|k: int| 0 <= k < s1.len() && s1[k] == (x, true);
            if k < top {
                assert(s0[k] == (x, true));
            }
        }
    }
    assert(ko_disc(g, s1, seen1)) by {
        reveal(ko_disc);
        assert forall|k: int| 0 <= k < seen1.len() implies #[trigger] discovery_entry(g, seen1.take(k), seen1[k]) by {
            if k < seen.len() {
                assert(seen1.take(k) =~= seen.take(k));
                assert(seen1[k] == seen[k]);
            } else {
                assert(seen1.take(k) =~= seen);
            }
        }
        assert forall|k: int| 0 <= k < seen1.len() implies gray(s1, seen1[k]) || !has_unlisted(g, seen1, #[trigger] seen1[k]) by {
            if k < seen.len() {
                assert(seen1[k] == seen[k]);
                if !gray(s0, seen[k]) {
                    assert(!has_unlisted(g, seen, seen[k]));
                    lemma_unlisted_grow(g, seen, u, seen[k]);
                }
            }
        }
    }
    assert(ko_marks(g, s1, seen1)) by {
        reveal(ko_marks);
        assert forall|a: int, b: int| 0 <= a < b < s1.len() && (#[trigger] s1[a]).1 && (#[trigger] s1[b]).1 implies
            seen1.index_of(s1[a].0) < seen1.index_of(s1[b].0) by {
            assert(s0[a].1);
            assert(seen.contains(s0[a].0));
            if b < top {
                assert(s0[b].1);
                assert(seen.contains(s0[b].0));
            }
        }
        assert forall|k: int, m: int| #[trigger] owned_by(s1, k, m) && !s1[k].1 implies g.adj(s1[m].0 as int).contains(s1[k].0) by {
            assert(owned_by(s0, k, m));
            assert(k < top);
        }
        assert forall|k1: int, k2: int, m: int| #[trigger] owned_by(s1, k1, m) && #[trigger] owned_by(s1, k2, m)
            && k1 < k2 && !s1[k1].1 && !s1[k2].1 implies
            g.adj(s1[m].0 as int).index_of(s1[k1].0) > g.adj(s1[m].0 as int).index_of(s1[k2].0) by {
            assert(owned_by(s0, k1, m) && owned_by(s0, k2, m));
            assert(k2 < top);
        }
    }
    assert(ko_cover(g, s1, seen1, top, g.adj(u as int).len() as int)) by {
        reveal(ko_cover);
        assert forall|m: int, t: int| 0 <= m < s1.len() && (#[trigger] s1[m]).1 && 0 <= t < g.adj(s1[m].0 as int).len()
            && (m != top || t >= g.adj(u as int).len()) implies
            seen1.contains(#[trigger] g.adj(s1[m].0 as int)[t])
            || exists|k: int| #[trigger] owned_by(s1, k, m) && !s1[k].1 && s1[k].0 == g.adj(s1[m].0 as int)[t] by {
            assert(m < top);
            assert(s0[m] == s1[m] && s0[m].1);
            let y = g.adj(s1[m].0 as int)[t];
            if seen.contains(y) {
                let p = choose|p: int| 0 <= p < seen.len() && seen[p] == y;
                assert(seen1[p] == y);
            } else {
                let k = choose|k: int| #[trigger] owned_by(s0, k, m) && !s0[k].1 && s0[k].0 == g.adj(s0[m].0 as int)[t];
                if k == top {
                    assert(seen1[seen.len() as int] == y);
                } else {
                    assert(owned_by(s1, k, m));
                }
            }
        }
    }
    assert(ko_begin(g, start_v, s1, seen1)) by {
        reveal(ko_begin);
        assert(s1 != seq![(start_v, false)]) by {
            if s1 == seq![(start_v, false)] {
                assert(s1[0] == (start_v, false));
                assert(top == 0);
            }
        }
        assert forall|k: int| 0 <= k < s1.len() && !(#[trigger] s1[k]).1 implies
            (exists|m: int| #[trigger] owned_by(s1, k, m)) || (s1 == seq![(start_v, false)] && !seen1.contains(start_v)) by {
            assert(k < top);
            assert(!s0[k].1);
            if !(exists|m: int| #[trigger] owned_by(s0, k, m)) {
                assert(s0 == seq![(start_v, false)]);
            }
            let m = choose|m: int| #[trigger] owned_by(s0, k, m);
            assert(owned_by(s1, k, m));
        }
    }
    assert(ko_tree(g, s1, seen1)) by {
        reveal(ko_tree);
        assert forall|b: int, a: int| #[trigger] owned_by(s1, b, a) && s1[b].1 implies
            entered_from(g, seen1.take(seen1.index_of(s1[b].0)), s1[b].0) == seen1.index_of(s1[a].0) by {
            assert(owned_by(s0, b, a));
            assert(s0[a].1);
            assert(seen.contains(s0[a].0));
            if b == top {
                assert(entry_source(g, seen, u, seen.index_of(s0[a].0)));
                lemma_entered_from_source(g, seen, u, seen.index_of(s0[a].0));
                assert(seen1.take(seen.len() as int) =~= seen);
            } else {
                assert(s0[b].1);
                assert(seen.contains(s0[b].0));
                let pb = seen.index_of(s0[b].0);
                assert(seen1.take(pb) =~= seen.take(pb));
            }
        }
        assert forall|b: int| 0 <= b < s1.len() && (#[trigger] s1[b]).1 && (forall|a: int| 0 <= a < b ==> !s1[a].1) implies
            entered_from(g, seen1.take(seen1.index_of(s1[b].0)), s1[b].0) == -1 by {
            if b == top {
                if exists|m: int| #[trigger] owned_by(s0, top, m) {
                    let m = choose|m: int| #[trigger] owned_by(s0, top, m);
                    assert(s1[m].1);
                }
                assert(seen1.take(seen.len() as int) =~= seen);
                lemma_entered_from_start(g, seen, u);
            } else {
                assert(s0[b].1);
                assert(seen.contains(s0[b].0));
                assert forall|a: int| 0 <= a < b implies !s0[a].1 by { assert(s1[a] == s0[a]); }
                let pb = seen.index_of(s0[b].0);
                assert(seen1.take(pb) =~= seen.take(pb));
            }
        }
        assert(seen1.take(seen.len() as int) =~= seen);
        assert forall|a: int, i: int| 0 <= a < s1.len() && (#[trigger] s1[a]).1 && seen1.index_of(s1[a].0) < i < seen1.len() implies
            #[trigger] descends(g, seen1, i, seen1.index_of(s1[a].0)) by {
            assert(a < top);
            assert(s0[a].1);
            assert(seen.contains(s0[a].0));
            let pa = seen.index_of(s0[a].0);
            if i < seen.len() {
                assert(descends(g, seen, i, pa));
                lemma_descends_extend(g, seen, seen1, i, pa);
            } else {
                let m = choose|m: int| #[trigger] owned_by(s0, top, m);
                assert(s0[m].1);
                assert(seen.contains(s0[m].0));
                let pv = seen.index_of(s0[m].0);
                assert(entry_source(g, seen, u, pv));
                lemma_entered_from_source(g, seen, u, pv);
                assert(seen1[seen.len() as int] == u);
                if a != m {
                    assert(a < m) by {
                        if a > m {
                            assert(!s0[a].1);
                        }
                    }
                    reveal(ko_marks);
                    assert(seen.index_of(s0[a].0) < seen.index_of(s0[m].0));
                    assert(descends(g, seen, pv, pa));
                    lemma_descends_extend(g, seen, seen1, pv, pa);
                }
                assert(descends(g, seen1, pv, pa));
            }
        }
    }
    assert(ko_fin(g, order, seen1)) by {
        reveal(ko_fin);
        assert(seen1.take(seen.len() as int) =~= seen);
        assert forall|i: int, j: int, p: int, q: int| #![trigger order[i], order[j], seen1[p], seen1[q]]
            0 <= i < j < order.len() && 0 <= p < seen1.len() && 0 <= q < seen1.len() && seen1[p] == order[i] && seen1[q] == order[j]
            implies finishes_before(g, seen1, p, q) by {
            assert(order.contains(order[i]) && order.contains(order[j]));
            assert(p < seen.len()) by {
                if p == seen.len() { assert(seen1[p] == u); assert(seen.contains(order[i])); }
            }
            assert(q < seen.len()) by {
                if q == seen.len() { assert(seen1[q] == u); assert(seen.contains(order[j])); }
            }
            assert(seen[p] == order[i] && seen[q] == order[j]);
            lemma_descends_extend(g, seen, seen1, p, q);
            lemma_descends_extend(g, seen, seen1, q, p);
        }
    }
}

/// An out-neighbour of the marked node at `t` that has been entered needs no
/// entry.
pub(super) proof fn lemma_ko_pass(g: &DirectedGraph, start_v: usize, s: Seq<(usize, bool)>, order: Seq<usize>, seen: Seq<usize>, t: int, j: int)
    requires
        ko_inv(g, start_v, s, order, seen, t, j),
        0 <= t < s.len(),
        s[t].1,
        0 < j <= g.adj(s[t].0 as int).len(),
        seen.contains(g.adj(s[t].0 as int)[j - 1]),
    ensures
        ko_inv(g, start_v, s, order, seen, t, j - 1),
{
    reveal(ko_cover);
}

/// Once every out-neighbour of the marked node at `t` is covered, the
/// marker needs no exception.
pub(super) proof fn lemma_ko_cover_done(g: &DirectedGraph, start_v: usize, s: Seq<(usize, bool)>, order: Seq<usize>, seen: Seq<usize>, t: int)
    requires
        ko_inv(g, start_v, s, order, seen, t, 0),
    ensures
        ko_inv(g, start_v, s, order, seen, -1, 0),
{
    reveal(ko_cover);
}

/// Pushing a waiting entry for the `j`-th out-neighbour of the node marked
/// at `t`, the top marker, when that neighbour has not been entered.
pub(super) proof fn lemma_ko_push(g: &DirectedGraph, start_v: usize, s: Seq<(usize, bool)>, order: Seq<usize>, seen: Seq<usize>, t: int, j: int)
    requires
        ko_inv(g, start_v, s, order, seen, t, j),
        g.wf(),
        0 <= t < s.len(),
        s[t].1,
        s[t].0 < g.n(),
        forall|k: int| t < k < s.len() ==> !(#[trigger] s[k]).1 && g.adj(s[t].0 as int).contains(s[k].0)
            && g.adj(s[t].0 as int).index_of(s[k].0) >= j,
        0 < j <= g.adj(s[t].0 as int).len(),
        !seen.contains(g.adj(s[t].0 as int)[j - 1]),
    ensures
        ko_inv(g, start_v, s.push((g.adj(s[t].0 as int)[j - 1], false)), order, seen, t, j - 1),
{
    let v = s[t].0;
    let adj = g.adj(v as int);
    let w = adj[j - 1];
    let s1 = s.push((w, false));
    let top = s.len() as int;
    assert(adj.no_duplicates());
    lemma_index_of(adj, j - 1);
    assert(forall|k: int| 0 <= k < s.len() ==> #[trigger] s1[k] == s[k]);
    assert(s1[top] == (w, false));
    assert forall|k: int, m: int| #[trigger] owned_by(s1, k, m) <==> (owned_by(s, k, m) || (k == top && m == t)) by {
        if owned_by(s1, k, m) {
            assert(s[m] == s1[m]);
            assert forall|m2: int| m < m2 < k implies !(#[trigger] s[m2]).1 by { assert(s1[m2] == s[m2]); }
            if k == top {
                if m < t {
                    assert(s1[t].1);
                } else if m > t {
                    assert(!s[m].1);
                }
            }
        }
        if owned_by(s, k, m) {
            assert(s1[m] == s[m]);
            assert forall|m2: int| m < m2 < k implies !(#[trigger] s1[m2]).1 by { assert(s1[m2] == s[m2]); }
        }
        if k == top && m == t {
            assert forall|m2: int| m < m2 < k implies !(#[trigger] s1[m2]).1 by { assert(s1[m2] == s[m2]); }
        }
    }
    assert forall|x: usize| gray(s1, x) <==> gray(s, x) by {
        if gray(s, x) {
            let k = choose|k: int| 0 <= k < s.len() && s[k] == (x, true);
            assert(s1[k] == (x, true));
        }
        if gray(s1, x) {
            let k = choose|k: int| 0 <= k < s1.len() && s1[k] == (x, true);
            assert(k != top);
            assert(s[k] == (x, true));
        }
    }
    assert(ko_disc(g, s1, seen)) by {
        reveal(ko_disc);
        assert forall|k: int| 0 <= k < seen.len() implies gray(s1, seen[k]) || !has_unlisted(g, seen, #[trigger] seen[k]) by {
            assert(gray(s, seen[k]) || !has_unlisted(g, seen, seen[k]));
        }
    }
    assert(ko_marks(g, s1, seen)) by {
        reveal(ko_marks);
        assert forall|a: int, b: int| 0 <= a < b < s1.len() && (#[trigger] s1[a]).1 && (#[trigger] s1[b]).1 implies
            seen.index_of(s1[a].0) < seen.index_of(s1[b].0) by {
            assert(b != top);
            assert(s[a].1 && s[b].1);
        }
        assert forall|k: int, m: int| #[trigger] owned_by(s1, k, m) && !s1[k].1 implies g.adj(s1[m].0 as int).contains(s1[k].0) by {
            if k == top {
                assert(m == t || owned_by(s, k, m));
                assert(!owned_by(s, top, m));
                assert(adj[j - 1] == w);
            }
        }
        assert forall|k1: int, k2: int, m: int| #[trigger] owned_by(s1, k1, m) && #[trigger] owned_by(s1, k2, m)
            && k1 < k2 && !s1[k1].1 && !s1[k2].1 implies
            g.adj(s1[m].0 as int).index_of(s1[k1].0) > g.adj(s1[m].0 as int).index_of(s1[k2].0) by {
            if k2 == top {
                assert(!owned_by(s, top, m));
                assert(m == t);
                assert(owned_by(s, k1, m));
                assert(t < k1 < s.len());
                assert(adj.index_of(s[k1].0) >= j);
            } else {
                assert(owned_by(s, k1, m) && owned_by(s, k2, m));
            }
        }
    }
    assert(ko_cover(g, s1, seen, t, j - 1)) by {
        reveal(ko_cover);
        assert forall|m: int, tt: int| 0 <= m < s1.len() && (#[trigger] s1[m]).1 && 0 <= tt < g.adj(s1[m].0 as int).len()
            && (m != t || tt >= j - 1) implies
            seen.contains(#[trigger] g.adj(s1[m].0 as int)[tt])
            || exists|k: int| #[trigger] owned_by(s1, k, m) && !s1[k].1 && s1[k].0 == g.adj(s1[m].0 as int)[tt] by {
            assert(m != top);
            assert(s[m] == s1[m]);
            if m == t && tt == j - 1 {
                assert(owned_by(s1, top, t));
            } else if !seen.contains(g.adj(s1[m].0 as int)[tt]) {
                let k = choose|k: int| #[trigger] owned_by(s, k, m) && !s[k].1 && s[k].0 == g.adj(s[m].0 as int)[tt];
                assert(owned_by(s1, k, m));
            }
        }
    }
    assert(ko_begin(g, start_v, s1, seen)) by {
        reveal(ko_begin);
        assert(s1 != seq![(start_v, false)]) by {
            if s1 == seq![(start_v, false)] {
                assert(s1.len() == 1);
            }
        }
        assert forall|k: int| 0 <= k < s1.len() && !(#[trigger] s1[k]).1 implies
            (exists|m: int| #[trigger] owned_by(s1, k, m)) || (s1 == seq![(start_v, false)] && !seen.contains(start_v)) by {
            if k == top {
                assert(owned_by(s1, top, t));
            } else {
                assert(!s[k].1);
                if !(exists|m: int| #[trigger] owned_by(s, k, m)) {
                    assert(s == seq![(start_v, false)]);
                    assert(s[t].1);
                }
                let m = choose|m: int| #[trigger] owned_by(s, k, m);
                assert(owned_by(s1, k, m));
            }
        }
    }
    assert(ko_tree(g, s1, seen)) by {
        reveal(ko_tree);
        assert forall|b: int, a: int| #[trigger] owned_by(s1, b, a) && s1[b].1 implies
            entered_from(g, seen.take(seen.index_of(s1[b].0)), s1[b].0) == seen.index_of(s1[a].0) by {
            assert(b != top);
            assert(owned_by(s, b, a));
        }
        assert forall|b: int| 0 <= b < s1.len() && (#[trigger] s1[b]).1 && (forall|a: int| 0 <= a < b ==> !s1[a].1) implies
            entered_from(g, seen.take(seen.index_of(s1[b].0)), s1[b].0) == -1 by {
            assert(b != top);
            assert(s[b].1);
            assert forall|a: int| 0 <= a < b implies !s[a].1 by { assert(s1[a] == s[a]); }
        }
        assert forall|a: int, i: int| 0 <= a < s1.len() && (#[trigger] s1[a]).1 && seen.index_of(s1[a].0) < i < seen.len() implies
            #[trigger] descends(g, seen, i, seen.index_of(s1[a].0)) by {
            assert(a != top);
            assert(s[a].1);
        }
    }
}

/// Before anything is entered the invariant holds.
pub(super) proof fn lemma_ko_initial(g: &DirectedGraph, start_v: usize)
    ensures
        ko_inv(g, start_v, Seq::empty(), Seq::empty(), Seq::empty(), -1, 0),
{
    reveal(ko_disc);
    reveal(ko_marks);
    reveal(ko_cover);
    reveal(ko_begin);
    reveal(ko_tree);
    reveal(ko_fin);
    assert(Seq::<(usize, bool)>::empty() != seq![(start_v, false)]) by {
        assert(seq![(start_v, false)].len() == 1);
    }
}

/// With no search under way, the next start changes nothing.
pub(super) proof fn lemma_ko_restart(g: &DirectedGraph, s1: usize, s2: usize, order: Seq<usize>, seen: Seq<usize>)
    requires
        ko_inv(g, s1, Seq::empty(), order, seen, -1, 0),
    ensures
        ko_inv(g, s2, Seq::empty(), order, seen, -1, 0),
{
    reveal(ko_begin);
    assert(Seq::<(usize, bool)>::empty() != seq![(s2, false)]) by {
        assert(seq![(s2, false)].len() == 1);
    }
}

/// When every node has been entered and every search is over, the nodes
/// were entered in the order of a depth-first search and finished in the
/// order it finishes them.
pub(super) proof fn lemma_ko_end(g: &DirectedGraph, start_v: usize, order: Seq<usize>, seen: Seq<usize>)
    requires
        ko_inv(g, start_v, Seq::empty(), order, seen, -1, 0),
        seen.len() == g.n(),
    ensures
        crate::graph::depth_first::is_discovery_order(g, seen),
        forall|i: int, j: int, p: int, q: int| #![trigger order[i], order[j], seen[p], seen[q]]
            0 <= i < j < order.len() && 0 <= p < seen.len() && 0 <= q < seen.len() && seen[p] == order[i] && seen[q] == order[j]
            ==> finishes_before(g, seen, p, q),
{
    reveal(ko_disc);
    reveal(ko_fin);
}

} // verus!
