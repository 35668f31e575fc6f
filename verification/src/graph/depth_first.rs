//! The order in which depth-first walks list the nodes they reach.

use vstd::prelude::*;

use crate::model::DirectedGraph;

verus! {

/// The entries of `s` that `listed` does not hold, in order.
pub open spec fn unlisted(s: Seq<usize>, listed: Seq<usize>) -> Seq<usize>
    decreases s.len(),
{
    if s.len() == 0 {
        Seq::empty()
    } else if listed.contains(s.last()) {
        unlisted(s.drop_last(), listed)
    } else {
        unlisted(s.drop_last(), listed).push(s.last())
    }
}

/// Some out-neighbour of `x` is missing from `listed`.
pub open spec fn has_unlisted(g: &DirectedGraph, listed: Seq<usize>, x: usize) -> bool {
    exists|t: int| 0 <= t < g.adj(x as int).len() && !listed.contains(#[trigger] g.adj(x as int)[t])
}

/// `y` is the out-neighbour of `x` missing from `listed` that comes last
/// among the out-neighbours of `x`.
pub open spec fn last_unlisted(g: &DirectedGraph, listed: Seq<usize>, x: usize, y: usize) -> bool {
    exists|t: int| 0 <= t < g.adj(x as int).len() && #[trigger] g.adj(x as int)[t] == y && !listed.contains(y)
        && forall|t2: int| t < t2 < g.adj(x as int).len() ==> listed.contains(#[trigger] g.adj(x as int)[t2])
}

/// No listed node has an out-neighbour missing from the list.
pub open spec fn walk_done(g: &DirectedGraph, listed: Seq<usize>) -> bool {
    forall|j: int| 0 <= j < listed.len() ==> !has_unlisted(g, listed, #[trigger] listed[j])
}

/// `y` continues a depth-first walk after `listed`: it is the last missing
/// out-neighbour of the latest listed node that still has one.
pub open spec fn dfs_next(g: &DirectedGraph, listed: Seq<usize>, y: usize) -> bool {
    exists|j: int| 0 <= j < listed.len() && #[trigger] last_unlisted(g, listed, listed[j], y)
        && forall|j2: int| j < j2 < listed.len() ==> !has_unlisted(g, listed, #[trigger] listed[j2])
}

/// `y` is the first node of `starts` that `listed` misses.
pub open spec fn first_missing_start(starts: Seq<usize>, listed: Seq<usize>, y: usize) -> bool {
    exists|c: int| 0 <= c < starts.len() && #[trigger] starts[c] == y && !listed.contains(y)
        && forall|c2: int| 0 <= c2 < c ==> listed.contains(#[trigger] starts[c2])
}

/// `y` is the next node of depth-first walks from the nodes of `starts` in
/// turn: it continues the current walk, or, when that walk is over, starts
/// the next from the first node of `starts` not yet listed.
pub open spec fn walk_entry(g: &DirectedGraph, starts: Seq<usize>, listed: Seq<usize>, y: usize) -> bool {
    dfs_next(g, listed, y) || (walk_done(g, listed) && first_missing_start(starts, listed, y))
}

/// The first `p` entries of `o` are the depth-first walks from the nodes of
/// `starts` taken in turn, each walk trying the out-neighbours of a node from
/// the last to the first; after them every node of `starts` is listed and no
/// listed node has a missing out-neighbour.
pub open spec fn depth_first_prefix(g: &DirectedGraph, starts: Seq<usize>, o: Seq<usize>, p: int) -> bool {
    &&& 0 <= p <= o.len()
    &&& forall|i: int| 0 <= i < p ==> #[trigger] walk_entry(g, starts, o.take(i), o[i])
    &&& walk_done(g, o.take(p))
    &&& forall|c: int| 0 <= c < starts.len() ==> o.take(p).contains(#[trigger] starts[c])
}

/// `y` is the out-neighbour of `x` missing from `listed` that comes first
/// among the out-neighbours of `x`.
pub open spec fn first_unlisted(g: &DirectedGraph, listed: Seq<usize>, x: usize, y: usize) -> bool {
    exists|t: int| 0 <= t < g.adj(x as int).len() && #[trigger] g.adj(x as int)[t] == y && !listed.contains(y)
        && forall|t2: int| 0 <= t2 < t ==> listed.contains(#[trigger] g.adj(x as int)[t2])
}

/// `y` is the node that a depth-first search over the whole graph enters
/// after `listed`, when it tries the out-neighbours of a node from the first
/// to the last and starts from the nodes in increasing order: the first
/// missing out-neighbour of the latest listed node that still has one, or,
/// when none has, the least node not listed.
pub open spec fn discovery_entry(g: &DirectedGraph, listed: Seq<usize>, y: usize) -> bool {
    ||| exists|j: int| 0 <= j < listed.len() && #[trigger] first_unlisted(g, listed, listed[j], y)
        && forall|j2: int| j < j2 < listed.len() ==> !has_unlisted(g, listed, #[trigger] listed[j2])
    ||| walk_done(g, listed) && y < g.n() && !listed.contains(y)
        && forall|z: usize| z < y ==> #[trigger] listed.contains(z)
}

/// `d` lists every node of `g` in the order in which such a search enters
/// them.
pub open spec fn is_discovery_order(g: &DirectedGraph, d: Seq<usize>) -> bool {
    &&& d.len() == g.n()
    &&& forall|i: int| 0 <= i < d.len() ==> #[trigger] discovery_entry(g, d.take(i), d[i])
}

/// A node whose out-neighbours are all listed keeps that when the list grows.
pub(crate) proof fn lemma_unlisted_grow(g: &DirectedGraph, o: Seq<usize>, w: usize, x: usize)
    requires
        !has_unlisted(g, o, x),
    ensures
        !has_unlisted(g, o.push(w), x),
{
    assert forall|t: int| 0 <= t < g.adj(x as int).len() implies o.push(w).contains(#[trigger] g.adj(x as int)[t]) by {
        assert(o.contains(g.adj(x as int)[t]));
        let k = choose|k: int| 0 <= k < o.len() && o[k] == g.adj(x as int)[t];
        assert(o.push(w)[k] == o[k]);
    }
}

/// The out-neighbours still missing from `o` of the entries of `o` at
/// positions `lo..hi`, entry by entry.
pub(crate) open spec fn pending_from(g: &DirectedGraph, o: Seq<usize>, lo: int, hi: int) -> Seq<usize>
    decreases hi - lo,
{
    if hi <= lo {
        Seq::empty()
    } else {
        pending_from(g, o, lo, hi - 1) + unlisted(g.adj(o[hi - 1] as int), o)
    }
}

/// Filtering a concatenation filters each part.
pub(crate) proof fn lemma_unlisted_concat(a: Seq<usize>, b: Seq<usize>, o: Seq<usize>)
    ensures
        unlisted(a + b, o) == unlisted(a, o) + unlisted(b, o),
    decreases b.len(),
{
    if b.len() == 0 {
        assert(a + b =~= a);
        assert(unlisted(a, o) + unlisted(b, o) =~= unlisted(a, o));
    } else {
        assert((a + b).drop_last() =~= a + b.drop_last());
        assert((a + b).last() == b.last());
        lemma_unlisted_concat(a, b.drop_last(), o);
        if o.contains(b.last()) {
        } else {
            assert(unlisted(a, o) + unlisted(b.drop_last(), o).push(b.last())
                =~= (unlisted(a, o) + unlisted(b.drop_last(), o)).push(b.last()));
        }
    }
}

/// Filtering by a shorter list and then by a longer one is filtering by the
/// longer one.
pub(crate) proof fn lemma_unlisted_mono(s: Seq<usize>, o1: Seq<usize>, o2: Seq<usize>)
    requires
        forall|y: usize| #[trigger] o1.contains(y) ==> o2.contains(y),
    ensures
        unlisted(unlisted(s, o1), o2) == unlisted(s, o2),
    decreases s.len(),
{
    if s.len() > 0 {
        lemma_unlisted_mono(s.drop_last(), o1, o2);
        let x = s.last();
        if !o1.contains(x) {
            let u = unlisted(s.drop_last(), o1);
            assert(u.push(x).drop_last() =~= u);
            assert(u.push(x).last() == x);
        }
    }
}

/// What the filter of a sequence says about its entries.
pub(crate) proof fn lemma_unlisted_facts(s: Seq<usize>, o: Seq<usize>)
    ensures
        unlisted(s, o).len() == 0 <==> forall|t: int| 0 <= t < s.len() ==> o.contains(#[trigger] s[t]),
        unlisted(s, o).len() > 0 ==> exists|t: int| 0 <= t < s.len() && #[trigger] s[t] == unlisted(s, o).last()
            && !o.contains(s[t]) && forall|t2: int| t < t2 < s.len() ==> o.contains(#[trigger] s[t2]),
    decreases s.len(),
{
    if s.len() > 0 {
        let s1 = s.drop_last();
        lemma_unlisted_facts(s1, o);
        let x = s.last();
        if o.contains(x) {
            if unlisted(s, o).len() == 0 {
                assert forall|t: int| 0 <= t < s.len() implies o.contains(#[trigger] s[t]) by {
                    if t < s1.len() {
                        assert(s1[t] == s[t]);
                    }
                }
            } else {
                let t = choose|t: int| 0 <= t < s1.len() && #[trigger] s1[t] == unlisted(s1, o).last()
                    && !o.contains(s1[t]) && forall|t2: int| t < t2 < s1.len() ==> o.contains(#[trigger] s1[t2]);
                assert(s[t] == s1[t]);
                assert forall|t2: int| t < t2 < s.len() implies o.contains(#[trigger] s[t2]) by {
                    if t2 < s1.len() {
                        assert(s1[t2] == s[t2]);
                    }
                }
            }
            if forall|t: int| 0 <= t < s.len() ==> o.contains(#[trigger] s[t]) {
                assert forall|t: int| 0 <= t < s1.len() implies o.contains(#[trigger] s1[t]) by {
                    assert(s1[t] == s[t]);
                }
            }
        } else {
            assert(s[s.len() - 1] == x);
            assert(unlisted(s, o).last() == x);
        }
    }
}

/// The filter of the out-neighbours of `x` decides whether `x` has a
/// missing out-neighbour, and its last entry is the last such one.
pub(crate) proof fn lemma_unlisted_adj(g: &DirectedGraph, o: Seq<usize>, x: usize)
    ensures
        unlisted(g.adj(x as int), o).len() == 0 <==> !has_unlisted(g, o, x),
        unlisted(g.adj(x as int), o).len() > 0 ==> last_unlisted(g, o, x, unlisted(g.adj(x as int), o).last()),
{
    lemma_unlisted_facts(g.adj(x as int), o);
}

/// Growing the list by `u` filters what was pending by it as well.
pub(crate) proof fn lemma_pending_push(g: &DirectedGraph, o: Seq<usize>, u: usize, lo: int, hi: int)
    requires
        0 <= lo,
        hi <= o.len(),
    ensures
        unlisted(pending_from(g, o, lo, hi), o.push(u)) == pending_from(g, o.push(u), lo, hi),
    decreases hi - lo,
{
    if hi > lo {
        lemma_pending_push(g, o, u, lo, hi - 1);
        assert(o.push(u)[hi - 1] == o[hi - 1]);
        let a = pending_from(g, o, lo, hi - 1);
        let b = unlisted(g.adj(o[hi - 1] as int), o);
        lemma_unlisted_concat(a, b, o.push(u));
        assert forall|y: usize| #[trigger] o.contains(y) implies o.push(u).contains(y) by {
            let k = choose|k: int| 0 <= k < o.len() && o[k] == y;
            assert(o.push(u)[k] == y);
        }
        lemma_unlisted_mono(g.adj(o[hi - 1] as int), o, o.push(u));
    }
}

/// The last pending node belongs to the latest entry that still has a
/// missing out-neighbour.
pub(crate) proof fn lemma_pending_last(g: &DirectedGraph, o: Seq<usize>, lo: int, hi: int)
    requires
        0 <= lo,
        hi <= o.len(),
        pending_from(g, o, lo, hi).len() > 0,
    ensures
        exists|j: int| lo <= j < hi && #[trigger] last_unlisted(g, o, o[j], pending_from(g, o, lo, hi).last())
            && forall|j2: int| j < j2 < hi ==> !has_unlisted(g, o, #[trigger] o[j2]),
    decreases hi - lo,
{
    let a = pending_from(g, o, lo, hi - 1);
    let b = unlisted(g.adj(o[hi - 1] as int), o);
    lemma_unlisted_adj(g, o, o[hi - 1]);
    if b.len() > 0 {
        assert((a + b).last() == b.last());
        assert(last_unlisted(g, o, o[hi - 1], pending_from(g, o, lo, hi).last()));
    } else {
        assert(a + b =~= a);
        lemma_pending_last(g, o, lo, hi - 1);
        let j = choose|j: int| lo <= j < hi - 1 && #[trigger] last_unlisted(g, o, o[j], pending_from(g, o, lo, hi - 1).last())
            && forall|j2: int| j < j2 < hi - 1 ==> !has_unlisted(g, o, #[trigger] o[j2]);
        assert(last_unlisted(g, o, o[j], pending_from(g, o, lo, hi).last()));
    }
}

/// A list closed under out-neighbours is a finished walk.
pub(crate) proof fn lemma_closed_walk_done(g: &DirectedGraph, o: Seq<usize>)
    requires
        g.wf(),
        forall|k: int| 0 <= k < o.len() ==> #[trigger] o[k] < g.n(),
        forall|x: usize, y: usize| o.contains(x) && #[trigger] g.edge(x as int, y as int) ==> o.contains(y),
    ensures
        walk_done(g, o),
{
    assert forall|j: int| 0 <= j < o.len() implies !has_unlisted(g, o, #[trigger] o[j]) by {
        if has_unlisted(g, o, o[j]) {
            let t = choose|t: int| 0 <= t < g.adj(o[j] as int).len() && !o.contains(#[trigger] g.adj(o[j] as int)[t]);
            assert(g.adj(o[j] as int)[t] < g.n());
            assert(o.contains(o[j]));
            assert(g.edge(o[j] as int, g.adj(o[j] as int)[t] as int));
        }
    }
}

/// The start of a walk while it is not listed yet.
pub(crate) open spec fn walk_front(start: usize, o: Seq<usize>) -> Seq<usize> {
    if o.contains(start) {
        Seq::empty()
    } else {
        seq![start]
    }
}

/// Listing the top `u` of the stack `st0` of a walk, when `u` is not listed
/// yet, and pushing its missing out-neighbours in order keeps the unlisted
/// part of the stack equal to what is pending; `u` is the start of the walk
/// or continues it depth first.
pub(crate) proof fn lemma_walk_fresh(g: &DirectedGraph, lo: int, start: usize, st0: Seq<usize>, o: Seq<usize>)
    requires
        0 <= lo <= o.len(),
        st0.len() > 0,
        !o.contains(st0.last()),
        unlisted(st0, o) == walk_front(start, o) + pending_from(g, o, lo, o.len() as int),
        o.contains(start) <==> o.len() > lo,
    ensures
        unlisted(st0.drop_last() + unlisted(g.adj(st0.last() as int), o.push(st0.last())), o.push(st0.last()))
            == walk_front(start, o.push(st0.last())) + pending_from(g, o.push(st0.last()), lo, o.len() as int + 1),
        o.push(st0.last()).contains(start),
        o.len() == lo ==> st0.last() == start,
        o.len() > lo ==> dfs_next(g, o, st0.last()),
{
    let u = st0.last();
    let o2 = o.push(u);
    let st1 = st0.drop_last();
    let au = unlisted(g.adj(u as int), o2);
    assert(unlisted(st0, o) == unlisted(st1, o).push(u));
    assert forall|y: usize| #[trigger] o.contains(y) implies o2.contains(y) by {
        let k = choose|k: int| 0 <= k < o.len() && o[k] == y;
        assert(o2[k] == y);
    }
    assert(o2[o.len() as int] == u);
    assert(o2.contains(u));
    lemma_unlisted_concat(st1, au, o2);
    lemma_unlisted_mono(g.adj(u as int), o2, o2);
    lemma_unlisted_mono(st1, o, o2);
    assert(pending_from(g, o2, lo, o.len() as int + 1) == pending_from(g, o2, lo, o.len() as int) + au);
    if o.len() == lo {
        assert(walk_front(start, o) == seq![start]);
        assert(pending_from(g, o, lo, o.len() as int) =~= Seq::<usize>::empty());
        assert(unlisted(st1, o).push(u) =~= seq![start]);
        assert(unlisted(st1, o).len() == 0);
        assert(unlisted(st1, o).push(u)[0] == u);
        assert(seq![start][0] == start);
        assert(u == start);
        assert(unlisted(st1, o) =~= Seq::<usize>::empty());
        assert(unlisted(Seq::<usize>::empty(), o2) =~= Seq::<usize>::empty());
        assert(pending_from(g, o2, lo, o.len() as int) =~= Seq::<usize>::empty());
        assert(walk_front(start, o2) =~= Seq::<usize>::empty());
    } else {
        let pend = pending_from(g, o, lo, o.len() as int);
        assert(walk_front(start, o) =~= Seq::<usize>::empty());
        assert(unlisted(st1, o).push(u) =~= pend);
        assert(pend.last() == u);
        assert(pend.drop_last() =~= unlisted(st1, o));
        assert(unlisted(pend, o2) == unlisted(pend.drop_last(), o2));
        lemma_pending_push(g, o, u, lo, o.len() as int);
        assert(walk_front(start, o2) =~= Seq::<usize>::empty());
        lemma_pending_last(g, o, lo, o.len() as int);
        let j = choose|j: int| lo <= j < o.len() && #[trigger] last_unlisted(g, o, o[j], pend.last())
            && forall|j2: int| j < j2 < o.len() ==> !has_unlisted(g, o, #[trigger] o[j2]);
        assert(last_unlisted(g, o, o[j], u));
    }
}

/// At most one node can be the next entry of the walks.
proof fn lemma_walk_entry_unique(g: &DirectedGraph, starts: Seq<usize>, listed: Seq<usize>, y1: usize, y2: usize)
    requires
        walk_entry(g, starts, listed, y1),
        walk_entry(g, starts, listed, y2),
    ensures
        y1 == y2,
{
    if dfs_next(g, listed, y1) && dfs_next(g, listed, y2) {
        let j1 = choose|j: int| 0 <= j < listed.len() && #[trigger] last_unlisted(g, listed, listed[j], y1)
            && forall|j2: int| j < j2 < listed.len() ==> !has_unlisted(g, listed, #[trigger] listed[j2]);
        let j2 = choose|j: int| 0 <= j < listed.len() && #[trigger] last_unlisted(g, listed, listed[j], y2)
            && forall|j3: int| j < j3 < listed.len() ==> !has_unlisted(g, listed, #[trigger] listed[j3]);
        let x1 = listed[j1];
        let x2 = listed[j2];
        let t1 = choose|t: int| 0 <= t < g.adj(x1 as int).len() && #[trigger] g.adj(x1 as int)[t] == y1 && !listed.contains(y1)
            && forall|t2: int| t < t2 < g.adj(x1 as int).len() ==> listed.contains(#[trigger] g.adj(x1 as int)[t2]);
        let t2 = choose|t: int| 0 <= t < g.adj(x2 as int).len() && #[trigger] g.adj(x2 as int)[t] == y2 && !listed.contains(y2)
            && forall|t3: int| t < t3 < g.adj(x2 as int).len() ==> listed.contains(#[trigger] g.adj(x2 as int)[t3]);
        assert(has_unlisted(g, listed, x1));
        assert(has_unlisted(g, listed, x2));
        if j1 < j2 {
            assert(!has_unlisted(g, listed, listed[j2]));
        } else if j2 < j1 {
            assert(!has_unlisted(g, listed, listed[j1]));
        } else {
            if t1 < t2 {
                assert(listed.contains(g.adj(x1 as int)[t2]));
            } else if t2 < t1 {
                assert(listed.contains(g.adj(x2 as int)[t1]));
            }
        }
    } else if dfs_next(g, listed, y1) || dfs_next(g, listed, y2) {
        let y = if dfs_next(g, listed, y1) { y1 } else { y2 };
        let j = choose|j: int| 0 <= j < listed.len() && #[trigger] last_unlisted(g, listed, listed[j], y)
            && forall|j2: int| j < j2 < listed.len() ==> !has_unlisted(g, listed, #[trigger] listed[j2]);
        let x = listed[j];
        let t = choose|t: int| 0 <= t < g.adj(x as int).len() && #[trigger] g.adj(x as int)[t] == y && !listed.contains(y)
            && forall|t2: int| t < t2 < g.adj(x as int).len() ==> listed.contains(#[trigger] g.adj(x as int)[t2]);
        assert(has_unlisted(g, listed, listed[j]));
        assert(walk_done(g, listed));
    } else {
        let c1 = choose|c: int| 0 <= c < starts.len() && #[trigger] starts[c] == y1 && !listed.contains(y1)
            && forall|c2: int| 0 <= c2 < c ==> listed.contains(#[trigger] starts[c2]);
        let c2 = choose|c: int| 0 <= c < starts.len() && #[trigger] starts[c] == y2 && !listed.contains(y2)
            && forall|c3: int| 0 <= c3 < c ==> listed.contains(#[trigger] starts[c3]);
        if c1 < c2 {
            assert(listed.contains(starts[c1]));
        } else if c2 < c1 {
            assert(listed.contains(starts[c2]));
        }
    }
}

/// After the walks are over nothing can follow them.
proof fn lemma_walks_over(g: &DirectedGraph, starts: Seq<usize>, listed: Seq<usize>, y: usize)
    requires
        walk_done(g, listed),
        forall|c: int| 0 <= c < starts.len() ==> listed.contains(#[trigger] starts[c]),
    ensures
        !walk_entry(g, starts, listed, y),
{
    if dfs_next(g, listed, y) {
        let j = choose|j: int| 0 <= j < listed.len() && #[trigger] last_unlisted(g, listed, listed[j], y)
            && forall|j2: int| j < j2 < listed.len() ==> !has_unlisted(g, listed, #[trigger] listed[j2]);
        let x = listed[j];
        let t = choose|t: int| 0 <= t < g.adj(x as int).len() && #[trigger] g.adj(x as int)[t] == y && !listed.contains(y)
            && forall|t2: int| t < t2 < g.adj(x as int).len() ==> listed.contains(#[trigger] g.adj(x as int)[t2]);
        assert(has_unlisted(g, listed, listed[j]));
    }
    if first_missing_start(starts, listed, y) {
        let c = choose|c: int| 0 <= c < starts.len() && #[trigger] starts[c] == y && !listed.contains(y)
            && forall|c2: int| 0 <= c2 < c ==> listed.contains(#[trigger] starts[c2]);
        assert(listed.contains(starts[c]));
    }
}

/// Two orders that begin with the walks agree on their first `i` entries.
proof fn lemma_walk_prefixes_agree(g: &DirectedGraph, starts: Seq<usize>, o1: Seq<usize>, p1: int, o2: Seq<usize>, p2: int, i: int)
    requires
        depth_first_prefix(g, starts, o1, p1),
        depth_first_prefix(g, starts, o2, p2),
        0 <= i <= p1,
        i <= p2,
    ensures
        o1.take(i) == o2.take(i),
    decreases i,
{
    if i > 0 {
        lemma_walk_prefixes_agree(g, starts, o1, p1, o2, p2, i - 1);
        assert(walk_entry(g, starts, o1.take(i - 1), o1[i - 1]));
        assert(walk_entry(g, starts, o2.take(i - 1), o2[i - 1]));
        lemma_walk_entry_unique(g, starts, o1.take(i - 1), o1[i - 1], o2[i - 1]);
        assert(o1.take(i) =~= o1.take(i - 1).push(o1[i - 1]));
        assert(o2.take(i) =~= o2.take(i - 1).push(o2[i - 1]));
    } else {
        assert(o1.take(0) =~= o2.take(0));
    }
}

/// The walks are determined by the graph and the start nodes: two orders
/// that begin with them begin with the same entries, as many of them.
pub proof fn lemma_depth_first_prefix_unique(g: &DirectedGraph, starts: Seq<usize>, o1: Seq<usize>, p1: int, o2: Seq<usize>, p2: int)
    requires
        depth_first_prefix(g, starts, o1, p1),
        depth_first_prefix(g, starts, o2, p2),
    ensures
        p1 == p2,
        o1.take(p1) == o2.take(p2),
{
    if p1 < p2 {
        lemma_walk_prefixes_agree(g, starts, o1, p1, o2, p2, p1);
        assert(walk_entry(g, starts, o2.take(p1), o2[p1]));
        lemma_walks_over(g, starts, o1.take(p1), o2[p1]);
    } else if p2 < p1 {
        lemma_walk_prefixes_agree(g, starts, o1, p1, o2, p2, p2);
        assert(walk_entry(g, starts, o1.take(p2), o1[p2]));
        lemma_walks_over(g, starts, o2.take(p2), o1[p2]);
    } else {
        lemma_walk_prefixes_agree(g, starts, o1, p1, o2, p2, p1);
    }
}

/// At most one node can be the next one a search enters.
proof fn lemma_discovery_entry_unique(g: &DirectedGraph, listed: Seq<usize>, y1: usize, y2: usize)
    requires
        discovery_entry(g, listed, y1),
        discovery_entry(g, listed, y2),
    ensures
        y1 == y2,
{
    let by_edge1 = exists|j: int| 0 <= j < listed.len() && #[trigger] first_unlisted(g, listed, listed[j], y1)
        && forall|j2: int| j < j2 < listed.len() ==> !has_unlisted(g, listed, #[trigger] listed[j2]);
    let by_edge2 = exists|j: int| 0 <= j < listed.len() && #[trigger] first_unlisted(g, listed, listed[j], y2)
        && forall|j2: int| j < j2 < listed.len() ==> !has_unlisted(g, listed, #[trigger] listed[j2]);
    if by_edge1 {
        let j1 = choose|j: int| 0 <= j < listed.len() && #[trigger] first_unlisted(g, listed, listed[j], y1)
            && forall|j2: int| j < j2 < listed.len() ==> !has_unlisted(g, listed, #[trigger] listed[j2]);
        let x1 = listed[j1];
        let t1 = choose|t: int| 0 <= t < g.adj(x1 as int).len() && #[trigger] g.adj(x1 as int)[t] == y1 && !listed.contains(y1)
            && forall|t2: int| 0 <= t2 < t ==> listed.contains(#[trigger] g.adj(x1 as int)[t2]);
        assert(has_unlisted(g, listed, listed[j1]));
        if by_edge2 {
            let j2 = choose|j: int| 0 <= j < listed.len() && #[trigger] first_unlisted(g, listed, listed[j], y2)
                && forall|j3: int| j < j3 < listed.len() ==> !has_unlisted(g, listed, #[trigger] listed[j3]);
            let x2 = listed[j2];
            let t2 = choose|t: int| 0 <= t < g.adj(x2 as int).len() && #[trigger] g.adj(x2 as int)[t] == y2 && !listed.contains(y2)
                && forall|t3: int| 0 <= t3 < t ==> listed.contains(#[trigger] g.adj(x2 as int)[t3]);
            assert(has_unlisted(g, listed, listed[j2]));
            if j1 < j2 {
                assert(!has_unlisted(g, listed, listed[j2]));
            } else if j2 < j1 {
                assert(!has_unlisted(g, listed, listed[j1]));
            } else if t1 < t2 {
                assert(listed.contains(g.adj(x2 as int)[t1]));
            } else if t2 < t1 {
                assert(listed.contains(g.adj(x1 as int)[t2]));
            }
        } else {
            assert(walk_done(g, listed));
        }
    } else if by_edge2 {
        let j2 = choose|j: int| 0 <= j < listed.len() && #[trigger] first_unlisted(g, listed, listed[j], y2)
            && forall|j3: int| j < j3 < listed.len() ==> !has_unlisted(g, listed, #[trigger] listed[j3]);
        let x2 = listed[j2];
        let t2 = choose|t: int| 0 <= t < g.adj(x2 as int).len() && #[trigger] g.adj(x2 as int)[t] == y2 && !listed.contains(y2)
            && forall|t3: int| 0 <= t3 < t ==> listed.contains(#[trigger] g.adj(x2 as int)[t3]);
        assert(has_unlisted(g, listed, listed[j2]));
        assert(walk_done(g, listed));
    } else {
        if y1 < y2 {
            assert(listed.contains(y1));
        } else if y2 < y1 {
            assert(listed.contains(y2));
        }
    }
}

/// Two discovery orders agree on their first `i` entries.
proof fn lemma_discovery_prefixes_agree(g: &DirectedGraph, d1: Seq<usize>, d2: Seq<usize>, i: int)
    requires
        is_discovery_order(g, d1),
        is_discovery_order(g, d2),
        0 <= i <= d1.len(),
    ensures
        d1.take(i) == d2.take(i),
    decreases i,
{
    if i > 0 {
        lemma_discovery_prefixes_agree(g, d1, d2, i - 1);
        assert(discovery_entry(g, d1.take(i - 1), d1[i - 1]));
        assert(discovery_entry(g, d2.take(i - 1), d2[i - 1]));
        lemma_discovery_entry_unique(g, d1.take(i - 1), d1[i - 1], d2[i - 1]);
        assert(d1.take(i) =~= d1.take(i - 1).push(d1[i - 1]));
        assert(d2.take(i) =~= d2.take(i - 1).push(d2[i - 1]));
    } else {
        assert(d1.take(0) =~= d2.take(0));
    }
}

/// The order in which a depth-first search enters the nodes is determined
/// by the graph.
pub proof fn lemma_discovery_order_unique(g: &DirectedGraph, d1: Seq<usize>, d2: Seq<usize>)
    requires
        is_discovery_order(g, d1),
        is_discovery_order(g, d2),
    ensures
        d1 == d2,
{
    lemma_discovery_prefixes_agree(g, d1, d2, d1.len() as int);
    assert(d1 =~= d1.take(d1.len() as int));
    assert(d2 =~= d2.take(d2.len() as int));
}

/// `j` is the position of the latest node of `listed` that still has a
/// missing out-neighbour, `y` being the first of those.
pub open spec fn entry_source(g: &DirectedGraph, listed: Seq<usize>, y: usize, j: int) -> bool {
    &&& 0 <= j < listed.len()
    &&& first_unlisted(g, listed, listed[j], y)
    &&& forall|j2: int| j < j2 < listed.len() ==> !has_unlisted(g, listed, #[trigger] listed[j2])
}

/// The position in `listed` of the node from which a depth-first search
/// enters `y` next, or -1 when it starts there.
pub open spec fn entered_from(g: &DirectedGraph, listed: Seq<usize>, y: usize) -> int {
    if exists|j: int| #[trigger] entry_source(g, listed, y, j) {
        choose|j: int| #[trigger] entry_source(g, listed, y, j)
    } else {
        -1
    }
}

/// In the search that enters the nodes in the order `d`, the node at
/// position `i` is the one at position `p` or was entered below it.
pub open spec fn descends(g: &DirectedGraph, d: Seq<usize>, i: int, p: int) -> bool
    decreases i,
{
    if i <= p {
        i == p
    } else {
        let q = entered_from(g, d.take(i), d[i]);
        if 0 <= q < i {
            descends(g, d, q, p)
        } else {
            false
        }
    }
}

/// In that search the node at position `p1` finishes before the one at
/// position `p2`: it was entered below it, or before it and not above it.
pub open spec fn finishes_before(g: &DirectedGraph, d: Seq<usize>, p1: int, p2: int) -> bool {
    ||| p2 < p1 && descends(g, d, p1, p2)
    ||| p1 < p2 && !descends(g, d, p2, p1)
}

/// A source found is the source.
pub(crate) proof fn lemma_entered_from_source(g: &DirectedGraph, listed: Seq<usize>, y: usize, j: int)
    requires
        entry_source(g, listed, y, j),
    ensures
        entered_from(g, listed, y) == j,
{
    let j2 = choose|j: int| #[trigger] entry_source(g, listed, y, j);
    assert(entry_source(g, listed, y, j2));
    let x = listed[j];
    let x2 = listed[j2];
    let t = choose|t: int| 0 <= t < g.adj(x as int).len() && #[trigger] g.adj(x as int)[t] == y && !listed.contains(y)
        && forall|t2: int| 0 <= t2 < t ==> listed.contains(#[trigger] g.adj(x as int)[t2]);
    let t2 = choose|t: int| 0 <= t < g.adj(x2 as int).len() && #[trigger] g.adj(x2 as int)[t] == y && !listed.contains(y)
        && forall|t3: int| 0 <= t3 < t ==> listed.contains(#[trigger] g.adj(x2 as int)[t3]);
    assert(has_unlisted(g, listed, listed[j]));
    assert(has_unlisted(g, listed, listed[j2]));
    if j < j2 {
        assert(!has_unlisted(g, listed, listed[j2]));
    } else if j2 < j {
        assert(!has_unlisted(g, listed, listed[j]));
    }
}

/// A search that starts at `y` enters it from nowhere.
pub(crate) proof fn lemma_entered_from_start(g: &DirectedGraph, listed: Seq<usize>, y: usize)
    requires
        walk_done(g, listed),
    ensures
        entered_from(g, listed, y) == -1,
{
    if exists|j: int| #[trigger] entry_source(g, listed, y, j) {
        let j = choose|j: int| #[trigger] entry_source(g, listed, y, j);
        let x = listed[j];
        let t = choose|t: int| 0 <= t < g.adj(x as int).len() && #[trigger] g.adj(x as int)[t] == y && !listed.contains(y)
            && forall|t2: int| 0 <= t2 < t ==> listed.contains(#[trigger] g.adj(x as int)[t2]);
        assert(has_unlisted(g, listed, listed[j]));
    }
}

/// Entering more nodes does not change how the earlier ones descend.
pub(crate) proof fn lemma_descends_extend(g: &DirectedGraph, d: Seq<usize>, d2: Seq<usize>, i: int, p: int)
    requires
        0 <= i < d.len(),
        d.len() <= d2.len(),
        d2.take(d.len() as int) == d,
    ensures
        descends(g, d2, i, p) == descends(g, d, i, p),
    decreases i,
{
    if i > p {
        assert(d2.take(i) =~= d.take(i)) by {
            assert forall|k: int| 0 <= k < i implies d2.take(i)[k] == d.take(i)[k] by {
                assert(d2.take(d.len() as int)[k] == d2[k]);
            }
        }
        assert(d2[i] == d2.take(d.len() as int)[i]);
        let q = entered_from(g, d.take(i), d[i]);
        if 0 <= q < i {
            lemma_descends_extend(g, d, d2, q, p);
        }
    }
}

/// The nodes that a walk from `s` along reversed edges has pushed on its
/// stack once it has taken the first `i` nodes of `m`, in the order pushed:
/// it marks a node when it pushes it, and for each node it takes pushes the
/// sources of the edges into it that are not marked, in order; the nodes of
/// `blocked` are marked before it starts.
pub open spec fn rev_pushed(g: &DirectedGraph, blocked: Seq<usize>, s: usize, m: Seq<usize>, i: nat) -> Seq<usize>
    decreases i,
{
    if i == 0 {
        seq![s]
    } else {
        let p = rev_pushed(g, blocked, s, m, (i - 1) as nat);
        p + unlisted(g.radj(m[i - 1] as int), blocked + p)
    }
}

/// `m` lists the nodes in the order in which that walk takes them from its
/// stack, the last pushed and not yet taken first, until nothing is left.
pub open spec fn rev_walk(g: &DirectedGraph, blocked: Seq<usize>, s: usize, m: Seq<usize>) -> bool {
    &&& forall|i: int| 0 <= i < m.len() ==>
        unlisted(#[trigger] rev_pushed(g, blocked, s, m, i as nat), m.take(i)).len() > 0
        && m[i] == unlisted(rev_pushed(g, blocked, s, m, i as nat), m.take(i)).last()
    &&& unlisted(rev_pushed(g, blocked, s, m, m.len()), m).len() == 0
}

/// What was pushed after `i` takes depends on the first `i` nodes taken.
pub(crate) proof fn lemma_rev_pushed_prefix(g: &DirectedGraph, blocked: Seq<usize>, s: usize, m1: Seq<usize>, m2: Seq<usize>, i: nat)
    requires
        i <= m1.len(),
        i <= m2.len(),
        forall|k: int| 0 <= k < i ==> m1[k] == m2[k],
    ensures
        rev_pushed(g, blocked, s, m1, i) == rev_pushed(g, blocked, s, m2, i),
    decreases i,
{
    if i > 0 {
        lemma_rev_pushed_prefix(g, blocked, s, m1, m2, (i - 1) as nat);
    }
}

/// Listing a node that a sequence does not hold changes nothing of its
/// filter.
pub(crate) proof fn lemma_unlisted_extra(s: Seq<usize>, o: Seq<usize>, v: usize)
    requires
        !s.contains(v),
    ensures
        unlisted(s, o.push(v)) == unlisted(s, o),
    decreases s.len(),
{
    if s.len() > 0 {
        assert(s.last() != v) by { assert(s[s.len() - 1] == s.last()); }
        assert(!s.drop_last().contains(v)) by {
            if s.drop_last().contains(v) {
                let k = choose|k: int| 0 <= k < s.drop_last().len() && s.drop_last()[k] == v;
                assert(s[k] == v);
            }
        }
        lemma_unlisted_extra(s.drop_last(), o, v);
        assert(o.push(v).contains(s.last()) == o.contains(s.last())) by {
            if o.push(v).contains(s.last()) {
                let k = choose|k: int| 0 <= k < o.push(v).len() && o.push(v)[k] == s.last();
                if k < o.len() { assert(o[k] == s.last()); }
            }
            if o.contains(s.last()) {
                let k = choose|k: int| 0 <= k < o.len() && o[k] == s.last();
                assert(o.push(v)[k] == s.last());
            }
        }
    }
}

/// Taking the last node not yet taken drops it from what is left.
pub(crate) proof fn lemma_unlisted_take_last(p: Seq<usize>, t: Seq<usize>)
    requires
        p.no_duplicates(),
        unlisted(p, t).len() > 0,
    ensures
        unlisted(p, t.push(unlisted(p, t).last())) == unlisted(p, t).drop_last(),
    decreases p.len(),
{
    let v = unlisted(p, t).last();
    let x = p.last();
    let p1 = p.drop_last();
    assert(p1.no_duplicates()) by {
        assert forall|a: int, b: int| 0 <= a < b < p1.len() implies p1[a] != p1[b] by {
            assert(p1[a] == p[a] && p1[b] == p[b]);
        }
    }
    assert(t.push(v).contains(x) <==> (t.contains(x) || x == v)) by {
        if t.push(v).contains(x) {
            let k = choose|k: int| 0 <= k < t.push(v).len() && t.push(v)[k] == x;
            if k < t.len() { assert(t[k] == x); }
        }
        if t.contains(x) {
            let k = choose|k: int| 0 <= k < t.len() && t[k] == x;
            assert(t.push(v)[k] == x);
        }
        assert(t.push(v)[t.len() as int] == v);
    }
    if t.contains(x) {
        lemma_unlisted_take_last(p1, t);
    } else {
        assert(v == x);
        assert(!p1.contains(x)) by {
            if p1.contains(x) {
                let k = choose|k: int| 0 <= k < p1.len() && p1[k] == x;
                assert(p[k] == x);
                assert(p[p.len() - 1] == x);
            }
        }
        lemma_unlisted_extra(p1, t, x);
        assert(unlisted(p1, t).push(x).drop_last() =~= unlisted(p1, t));
    }
}

/// A sequence none of whose entries is listed is its own filter.
pub(crate) proof fn lemma_unlisted_none(s: Seq<usize>, o: Seq<usize>)
    requires
        forall|k: int| 0 <= k < s.len() ==> !o.contains(#[trigger] s[k]),
    ensures
        unlisted(s, o) == s,
    decreases s.len(),
{
    if s.len() > 0 {
        lemma_unlisted_none(s.drop_last(), o);
        assert(!o.contains(s[s.len() - 1]));
        assert(s.drop_last().push(s.last()) =~= s);
    }
}

/// What the filter holds comes from the sequence and is not listed.
pub(crate) proof fn lemma_unlisted_member(s: Seq<usize>, o: Seq<usize>, x: usize)
    requires
        unlisted(s, o).contains(x),
    ensures
        exists|i: int| 0 <= i < s.len() && s[i] == x,
        !o.contains(x),
    decreases s.len(),
{
    let s1 = s.drop_last();
    if o.contains(s.last()) {
        lemma_unlisted_member(s1, o, x);
        let i = choose|i: int| 0 <= i < s1.len() && s1[i] == x;
        assert(s[i] == x);
    } else {
        let u = unlisted(s1, o);
        let k = choose|k: int| 0 <= k < u.push(s.last()).len() && u.push(s.last())[k] == x;
        if k < u.len() {
            assert(u[k] == x);
            lemma_unlisted_member(s1, o, x);
            let i = choose|i: int| 0 <= i < s1.len() && s1[i] == x;
            assert(s[i] == x);
        } else {
            assert(x == s.last());
            assert(s[s.len() - 1] == x);
        }
    }
}

/// Two lists that both follow such a walk agree on their first `i` nodes.
proof fn lemma_rev_walk_prefix(g: &DirectedGraph, blocked: Seq<usize>, s: usize, m1: Seq<usize>, m2: Seq<usize>, i: int)
    requires
        rev_walk(g, blocked, s, m1),
        rev_walk(g, blocked, s, m2),
        0 <= i <= m1.len(),
        i <= m2.len(),
    ensures
        m1.take(i) == m2.take(i),
    decreases i,
{
    if i > 0 {
        let k = i - 1;
        lemma_rev_walk_prefix(g, blocked, s, m1, m2, k);
        assert forall|t: int| 0 <= t < k implies m1[t] == m2[t] by {
            assert(m1.take(k)[t] == m2.take(k)[t]);
        }
        lemma_rev_pushed_prefix(g, blocked, s, m1, m2, k as nat);
        assert(m1[k] == unlisted(rev_pushed(g, blocked, s, m1, k as nat), m1.take(k)).last());
        assert(m2[k] == unlisted(rev_pushed(g, blocked, s, m2, k as nat), m2.take(k)).last());
        assert(m1.take(i) =~= m1.take(k).push(m1[k]));
        assert(m2.take(i) =~= m2.take(k).push(m2[k]));
    } else {
        assert(m1.take(0) =~= m2.take(0));
    }
}

/// Such a walk is determined by where it starts and what is blocked.
pub(crate) proof fn lemma_rev_walk_unique(g: &DirectedGraph, blocked: Seq<usize>, s: usize, m1: Seq<usize>, m2: Seq<usize>)
    requires
        rev_walk(g, blocked, s, m1),
        rev_walk(g, blocked, s, m2),
    ensures
        m1 == m2,
{
    if m1.len() < m2.len() {
        let k = m1.len() as int;
        lemma_rev_walk_prefix(g, blocked, s, m1, m2, k);
        assert(m1 =~= m1.take(k));
        assert forall|t: int| 0 <= t < k implies m1[t] == m2[t] by {
            assert(m1.take(k)[t] == m2.take(k)[t]);
        }
        lemma_rev_pushed_prefix(g, blocked, s, m1, m2, k as nat);
        assert(unlisted(rev_pushed(g, blocked, s, m2, k as nat), m2.take(k)).len() > 0);
    } else if m2.len() < m1.len() {
        let k = m2.len() as int;
        lemma_rev_walk_prefix(g, blocked, s, m1, m2, k);
        assert(m2 =~= m2.take(k));
        assert forall|t: int| 0 <= t < k implies m1[t] == m2[t] by {
            assert(m1.take(k)[t] == m2.take(k)[t]);
        }
        lemma_rev_pushed_prefix(g, blocked, s, m1, m2, k as nat);
        assert(unlisted(rev_pushed(g, blocked, s, m1, k as nat), m1.take(k)).len() > 0);
    } else {
        lemma_rev_walk_prefix(g, blocked, s, m1, m2, m1.len() as int);
        assert(m1 =~= m1.take(m1.len() as int));
        assert(m2 =~= m2.take(m2.len() as int));
    }
}

} // verus!
