//! Strongly connected components of the communication graph.

use vstd::prelude::*;

use crate::graph::depth_first::{
    lemma_rev_pushed_prefix, lemma_unlisted_member, lemma_unlisted_none, lemma_unlisted_take_last, rev_pushed, rev_walk,
    unlisted, discovery_entry, finishes_before, first_unlisted, has_unlisted, is_discovery_order, lemma_discovery_order_unique,
};
use crate::graph::facts::{
    flat, is_component, is_scc_partition, lemma_concat_contains, lemma_flat_part_no_dup, lemma_scc_partitions_agree, lemma_concat_no_dup, lemma_covering_len, lemma_flat_contains,
    lemma_distinct_below, lemma_multi_part_iff_cycle, lemma_push_contains, lemma_reaches_prepend, lemma_reaches_self,
    reaches, views,
};
use crate::model::DirectedGraph;

mod kosaraju_inv;
mod kosaraju_order;
mod tarjan_inv;
mod tarjan_order;

use kosaraju_inv::{
    finish_law, fo_core, fo_cover_at, lemma_component_done, lemma_fo_cover_done, lemma_preds_before, lemma_fo_end, lemma_fo_enter,
    lemma_fo_finish, lemma_fo_initial, lemma_fo_pass, lemma_fo_push, lemma_fo_skip, lemma_fo_start,
};
use kosaraju_order::{
    ko_basic, ko_inv, lemma_ko_cover_done, lemma_ko_end, lemma_ko_enter, lemma_ko_finish, lemma_ko_initial, lemma_ko_pass,
    lemma_ko_push, lemma_ko_restart, lemma_ko_skip, lemma_ko_start,
};
use tarjan_order::{
    disc_inv, fin_inv, lemma_disc_advance, lemma_disc_enter, lemma_disc_finish, lemma_disc_initial, lemma_disc_start,
    lemma_disc_result, lemma_fin_advance, lemma_fin_enter, lemma_fin_finish, lemma_fin_initial, lemma_fin_result, lemma_fin_start,
};
use tarjan_inv::{
    advance_step, enter_step, finish_step, lemma_advance_keeps, lemma_components, lemma_enter_keeps, lemma_finish_keeps,
    lemma_initial, lemma_start_keeps, reach_inv,
};

verus! {

/// One pending call of the depth-first search: the node, how many of its
/// out-neighbours have been looked at, and whether the node has been entered.
#[derive(Clone, Copy)]
struct TarjanFrame {
    node: usize,
    neighbor_idx: usize,
    visited: bool,
}

/// Work left in the pending calls: one unit per frame and one per neighbour
/// not yet looked at.
spec fn frame_work(g: &DirectedGraph, frames: Seq<TarjanFrame>) -> int
    decreases frames.len(),
{
    if frames.len() == 0 {
        0
    } else {
        frame_work(g, frames.drop_last()) + (g.adj(frames.last().node as int).len() - frames.last().neighbor_idx) + 1
    }
}

/// 1 when the top frame has not been entered yet, else 0.
spec fn top_fresh(frames: Seq<TarjanFrame>) -> int {
    if frames.len() > 0 && !frames.last().visited { 1 } else { 0 }
}

/// Work left is never negative when every frame has looked at no more
/// neighbours than it has.
proof fn lemma_frame_work_nonneg(g: &DirectedGraph, frames: Seq<TarjanFrame>)
    requires
        forall|i: int| 0 <= i < frames.len() ==>
            (#[trigger] frames[i]).neighbor_idx <= g.adj(frames[i].node as int).len(),
    ensures
        frame_work(g, frames) >= 0,
    decreases frames.len(),
{
    if frames.len() > 0 {
        lemma_frame_work_nonneg(g, frames.drop_last());
    }
}

/// The index given to `v` when it was entered.
spec fn idx(indices: Seq<Option<usize>>, v: usize) -> int {
    indices[v as int]->0 as int
}


/// The state of the search.
struct TarjanState {
    index: usize,
    indices: Vec<Option<usize>>,
    lowlink: Vec<usize>,
    on_stack: Vec<bool>,
    stack: Vec<usize>,
    sccs: Vec<Vec<usize>>,
    call_stack: Vec<TarjanFrame>,
    order: Ghost<Seq<usize>>,
}

impl TarjanState {
    /// What holds between the components found, the nodes entered so far and
    /// the order they were entered in, whatever search is under way.
    spec fn settled(&self, g: &DirectedGraph) -> bool {
        let n = g.n();
        let order = self.order@;
        &&& g.wf()
        &&& self.indices@.len() == n
        &&& self.lowlink@.len() == n
        &&& self.on_stack@.len() == n
        &&& self.index == order.len()
        &&& order.no_duplicates()
        &&& forall|k: int| 0 <= k < order.len() ==> #[trigger] order[k] < n
        &&& forall|k: int| 0 <= k < order.len() ==> #[trigger] self.indices@[order[k] as int] == Some(k as usize)
        &&& forall|v: usize| v < n && (#[trigger] self.indices@[v as int]) is Some ==> order.contains(v)
        &&& forall|c: int| 0 <= c < self.sccs@.len() ==> #[trigger] self.sccs@[c]@.len() > 0
    }

    /// Between two searches: nothing is open and the components hold exactly
    /// the nodes entered.
    spec fn idle(&self, g: &DirectedGraph) -> bool {
        &&& self.settled(g)
        &&& self.stack@.len() == 0
        &&& self.call_stack@.len() == 0
        &&& forall|v: int| 0 <= v < g.n() ==> !#[trigger] self.on_stack@[v]
        &&& flat(views(self.sccs@)).no_duplicates()
        &&& forall|x: usize| #[trigger] flat(views(self.sccs@)).contains(x) <==> self.order@.contains(x)
    }

    /// During the search from `start_v`, which began when `base` nodes had
    /// been entered in the order `start_order`.
    spec fn searching(&self, g: &DirectedGraph, start_v: usize, base: int, start_order: Seq<usize>) -> bool {
        let n = g.n();
        let order = self.order@;
        let indices = self.indices@;
        let lowlink = self.lowlink@;
        let on_stack = self.on_stack@;
        let stack = self.stack@;
        let call_stack = self.call_stack@;
        &&& self.settled(g)
        &&& start_v < n
        &&& 0 <= base <= order.len()
        &&& forall|k: int| 0 <= k < start_order.len() ==> #[trigger] order[k] == start_order[k]
        &&& start_order.len() == base
        &&& order.len() > base ==> order[base] == start_v
        &&& order.len() == base ==> indices[start_v as int] is None
        &&& call_stack.len() > 0 ==> call_stack[0].node == start_v
        &&& call_stack.len() == 0 ==> order.len() > base && stack.len() == 0
        &&& forall|i: int| 0 <= i < call_stack.len() ==> (#[trigger] call_stack[i]).node < n
            && call_stack[i].neighbor_idx <= g.adj(call_stack[i].node as int).len()
        &&& forall|i: int| 0 <= i < call_stack.len() - 1 ==> (#[trigger] call_stack[i]).visited
        &&& forall|i: int| 0 <= i < call_stack.len() && (#[trigger] call_stack[i]).visited ==>
            indices[call_stack[i].node as int] is Some && on_stack[call_stack[i].node as int]
        &&& forall|i: int| 0 <= i < call_stack.len() && !(#[trigger] call_stack[i]).visited ==>
            indices[call_stack[i].node as int] is None && call_stack[i].neighbor_idx == 0
            && (call_stack[i].node == start_v ==> order.len() == base)
        &&& forall|i: int, j: int| 0 <= i < j < call_stack.len() && (#[trigger] call_stack[j]).visited ==>
            idx(indices, (#[trigger] call_stack[i]).node) < idx(indices, call_stack[j].node)
        &&& order.len() + top_fresh(call_stack) <= n
        &&& forall|v: int| 0 <= v < n ==> (#[trigger] on_stack[v] <==> stack.contains(v as usize))
        &&& stack.no_duplicates()
        &&& forall|k: int| 0 <= k < stack.len() ==> #[trigger] stack[k] < n && indices[stack[k] as int] is Some
            && idx(indices, stack[k]) >= base
        &&& forall|a: int, b: int| 0 <= a < b < stack.len() ==>
            idx(indices, #[trigger] stack[a]) < idx(indices, #[trigger] stack[b])
        &&& stack.len() > 0 ==> stack[0] == start_v
        &&& forall|v: usize| v < n && (#[trigger] indices[v as int]) is Some && idx(indices, v) >= base
            ==> lowlink[v as int] <= idx(indices, v) && lowlink[v as int] >= base
        &&& (flat(views(self.sccs@)) + stack).no_duplicates()
        &&& forall|x: usize| #[trigger] (flat(views(self.sccs@)) + stack).contains(x) <==> order.contains(x)
    }

    /// Enters the node of the top frame.
    #[verifier::rlimit(60)]
    fn enter_top(&mut self, graph: &DirectedGraph, start_v: usize, Ghost(base): Ghost<int>, Ghost(start_order): Ghost<Seq<usize>>)
        requires
            old(self).searching(graph, start_v, base, start_order),
            old(self).call_stack@.len() > 0,
            !old(self).call_stack@.last().visited,
        ensures
            final(self).searching(graph, start_v, base, start_order),
            final(self).call_stack@.len() == old(self).call_stack@.len(),
            final(self).call_stack@.last().visited,
            final(self).call_stack@.drop_last() == old(self).call_stack@.drop_last(),
            final(self).call_stack@.last().node == old(self).call_stack@.last().node,
            final(self).call_stack@.last().neighbor_idx == old(self).call_stack@.last().neighbor_idx,
            final(self).order@.len() == old(self).order@.len() + 1,
            final(self).order@ == old(self).order@.push(old(self).call_stack@.last().node),
            forall|v: usize| v < graph.n() && (#[trigger] old(self).indices@[v as int]) is Some ==> final(self).indices@[v as int] == old(self).indices@[v as int],
            enter_step(&*old(self), &*final(self)),
    {
        let n = graph.node_count();
        let top = self.call_stack.len() - 1;
        let mut frame = self.call_stack[top];
        let v = frame.node;
        let ghost frames0 = self.call_stack@;
        let ghost frames_indices = self.indices@;
                proof {
                    assert(!self.order@.contains(v)) by {
                        if self.order@.contains(v) {
                            let k = choose|k: int| 0 <= k < self.order@.len() && self.order@[k] == v;
                            assert(self.indices@[self.order@[k] as int] == Some(k as usize));
                        }
                    }
                    assert(!self.stack@.contains(v)) by {
                        if self.stack@.contains(v) {
                            let k = choose|k: int| 0 <= k < self.stack@.len() && self.stack@[k] == v;
                            assert(self.indices@[self.stack@[k] as int] is Some);
                        }
                    }
                    lemma_concat_contains(flat(views(self.sccs@)), self.stack@, v);
                }
                frame.visited = true;
                let ghost old_indices = self.indices@;
                let ghost old_stack = self.stack@;
                let ghost old_order = self.order@;
                self.indices.set(v, Some(self.index));
                self.lowlink.set(v, self.index);
                self.index = self.index + 1;
                self.stack.push(v);
                self.on_stack.set(v, true);
                self.call_stack.set(top, frame);
                proof {
                    self.order@ = self.order@.push(v);
                    assert forall|k: int| 0 <= k < self.order@.len() implies #[trigger] self.indices@[self.order@[k] as int] == Some(k as usize) by {
                        if k < old_order.len() {
                            assert(old_order[k] != v);
                        }
                    }
                    assert forall|x: usize| x < n && (#[trigger] self.indices@[x as int]) is Some implies self.order@.contains(x) by {
                        if x == v {
                            assert(self.order@[old_order.len() as int] == v);
                        } else {
                            assert(old_order.contains(x));
                            let k = choose|k: int| 0 <= k < old_order.len() && old_order[k] == x;
                            assert(self.order@[k] == x);
                        }
                    }
                    assert forall|x: usize| #[trigger] (flat(views(self.sccs@)) + self.stack@).contains(x) <==> self.order@.contains(x) by {
                        lemma_concat_contains(flat(views(self.sccs@)), self.stack@, x);
                        lemma_concat_contains(flat(views(self.sccs@)), old_stack, x);
                        if x != v {
                            assert(self.stack@.contains(x) <==> old_stack.contains(x)) by {
                                if self.stack@.contains(x) {
                                    let k = choose|k: int| 0 <= k < self.stack@.len() && self.stack@[k] == x;
                                    assert(old_stack[k] == x);
                                }
                                if old_stack.contains(x) {
                                    let k = choose|k: int| 0 <= k < old_stack.len() && old_stack[k] == x;
                                    assert(self.stack@[k] == x);
                                }
                            }
                            assert(self.order@.contains(x) <==> old_order.contains(x)) by {
                                if self.order@.contains(x) {
                                    let k = choose|k: int| 0 <= k < self.order@.len() && self.order@[k] == x;
                                    assert(old_order[k] == x);
                                }
                                if old_order.contains(x) {
                                    let k = choose|k: int| 0 <= k < old_order.len() && old_order[k] == x;
                                    assert(self.order@[k] == x);
                                }
                            }
                        } else {
                            assert(self.stack@[old_stack.len() as int] == v);
                            assert(self.order@[old_order.len() as int] == v);
                        }
                    }
                    assert((flat(views(self.sccs@)) + self.stack@).no_duplicates()) by {
                        assert(flat(views(self.sccs@)) + self.stack@ =~= (flat(views(self.sccs@)) + old_stack).push(v));
                        lemma_concat_contains(flat(views(self.sccs@)), old_stack, v);
                    }
                    assert forall|x: int| 0 <= x < n implies (#[trigger] self.on_stack@[x] <==> self.stack@.contains(x as usize)) by {
                        if x != v as int {
                            if self.stack@.contains(x as usize) {
                                let k = choose|k: int| 0 <= k < self.stack@.len() && self.stack@[k] == x as usize;
                                assert(old_stack[k] == x as usize);
                            }
                            if old_stack.contains(x as usize) {
                                let k = choose|k: int| 0 <= k < old_stack.len() && old_stack[k] == x as usize;
                                assert(self.stack@[k] == x as usize);
                            }
                        } else {
                            assert(self.stack@[old_stack.len() as int] == v);
                        }
                    }
                    assert forall|k: int| 0 <= k < self.stack@.len() implies #[trigger] self.stack@[k] < n && self.indices@[self.stack@[k] as int] is Some
                        && idx(self.indices@, self.stack@[k]) >= base by {
                        if k < old_stack.len() {
                            assert(old_stack[k] != v);
                            assert(old_indices[old_stack[k] as int] is Some);
                        }
                    }
                    assert forall|a: int, b: int| 0 <= a < b < self.stack@.len() implies
                        idx(self.indices@, #[trigger] self.stack@[a]) < idx(self.indices@, #[trigger] self.stack@[b]) by {
                        assert(old_stack[a] != v);
                        assert(old_indices[old_stack[a] as int] is Some);
                        assert(idx(old_indices, old_stack[a]) < old_order.len()) by {
                            assert(old_order.contains(old_stack[a]));
                            let k = choose|k: int| 0 <= k < old_order.len() && old_order[k] == old_stack[a];
                            assert(old_indices[old_order[k] as int] == Some(k as usize));
                        }
                        if b < old_stack.len() {
                            assert(old_stack[b] != v);
                        }
                    }
                    assert(self.stack@.len() > 0 ==> self.stack@[0] == start_v) by {
                        if old_stack.len() == 0 {
                            assert(frames0[top as int].node == v);
                            if top > 0 {
                                assert(frames0[0].visited);
                                assert(self.on_stack@[frames0[0].node as int]);
                            }
                            assert(v == start_v);
                        }
                    }
                    assert forall|i: int, j: int| 0 <= i < j < self.call_stack@.len() && (#[trigger] self.call_stack@[j]).visited implies
                        idx(self.indices@, (#[trigger] self.call_stack@[i]).node) < idx(self.indices@, self.call_stack@[j].node) by {
                        assert(frames0[i].visited);
                        assert(old_indices[frames0[i].node as int] is Some);
                        assert(frames0[i].node != v);
                        assert(idx(old_indices, frames0[i].node) < old_order.len()) by {
                            assert(old_order.contains(frames0[i].node));
                            let k = choose|k: int| 0 <= k < old_order.len() && old_order[k] == frames0[i].node;
                            assert(old_indices[old_order[k] as int] == Some(k as usize));
                        }
                        if j < top {
                            assert(frames0[j].visited);
                            assert(frames0[j].node != v);
                        }
                    }
                    assert forall|i: int| 0 <= i < self.call_stack@.len() && (#[trigger] self.call_stack@[i]).visited implies
                        self.indices@[self.call_stack@[i].node as int] is Some && self.on_stack@[self.call_stack@[i].node as int] by {
                        if i < top {
                            assert(frames0[i].visited);
                            assert(self.stack@.contains(frames0[i].node)) by {
                                assert(old_stack.contains(frames0[i].node));
                                let k = choose|k: int| 0 <= k < old_stack.len() && old_stack[k] == frames0[i].node;
                                assert(self.stack@[k] == frames0[i].node);
                            }
                        }
                    }
                    assert(self.order@.len() > base ==> self.order@[base as int] == start_v) by {
                        if old_order.len() == base {
                            assert(self.indices@[start_v as int] is Some);
                            assert(old_indices[start_v as int] is None);
                            assert(v == start_v);
                        }
                    }
                }
        proof {
            assert(self.call_stack@.drop_last() =~= frames0.drop_last());
            assert forall|x: usize| x < graph.n() && (#[trigger] frames_indices[x as int]) is Some
                implies self.indices@[x as int] == frames_indices[x as int] by {
                if x == v {}
            }
        }
    }

    /// Looks at the next out-neighbour of the top frame's node.
    #[verifier::rlimit(60)]
    fn advance_top(&mut self, graph: &DirectedGraph, start_v: usize, Ghost(base): Ghost<int>, Ghost(start_order): Ghost<Seq<usize>>)
        requires
            old(self).searching(graph, start_v, base, start_order),
            old(self).call_stack@.len() > 0,
            old(self).call_stack@.last().visited,
            old(self).call_stack@.last().neighbor_idx < graph.adj(old(self).call_stack@.last().node as int).len(),
        ensures
            final(self).searching(graph, start_v, base, start_order),
            graph.n() - final(self).order@.len() - top_fresh(final(self).call_stack@)
                < graph.n() - old(self).order@.len() - top_fresh(old(self).call_stack@)
            || (graph.n() - final(self).order@.len() - top_fresh(final(self).call_stack@)
                == graph.n() - old(self).order@.len() - top_fresh(old(self).call_stack@)
                && frame_work(graph, final(self).call_stack@) < frame_work(graph, old(self).call_stack@)),
            forall|v: usize| v < graph.n() && (#[trigger] old(self).indices@[v as int]) is Some ==> final(self).indices@[v as int] == old(self).indices@[v as int],
            final(self).order@ == old(self).order@,
            advance_step(graph, &*old(self), &*final(self)),
    {
        let n = graph.node_count();
        let top = self.call_stack.len() - 1;
        let mut frame = self.call_stack[top];
        let v = frame.node;
        let ghost frames1 = self.call_stack@;
        let deg = graph.adjacency[v].len();
                let w = graph.adjacency[v][frame.neighbor_idx];
                frame.neighbor_idx = frame.neighbor_idx + 1;
                self.call_stack.set(top, frame);
                proof {
                    assert(graph.adj(v as int)[frame.neighbor_idx - 1] == w);
                    assert(w < n);
                    assert(frame_work(graph, self.call_stack@) == frame_work(graph, frames1) - 1) by {
                        assert(self.call_stack@.drop_last() =~= frames1.drop_last());
                    }
                }
                if self.indices[w].is_none() {
                    self.call_stack.push(TarjanFrame { node: w, neighbor_idx: 0, visited: false });
                    proof {
                        assert(!self.order@.contains(w)) by {
                            if self.order@.contains(w) {
                                let k = choose|k: int| 0 <= k < self.order@.len() && self.order@[k] == w;
                                assert(self.indices@[self.order@[k] as int] == Some(k as usize));
                            }
                        }
                        assert forall|i: int| 0 <= i < self.order@.push(w).len() implies #[trigger] self.order@.push(w)[i] < n by {
                            if i < self.order@.len() { assert(self.order@.push(w)[i] == self.order@[i]); }
                        }
                        assert(self.order@.push(w).no_duplicates()) by {
                            assert forall|a: int, b: int| 0 <= a < b < self.order@.push(w).len() implies self.order@.push(w)[a] != self.order@.push(w)[b] by {
                                if b == self.order@.len() { assert(self.order@.push(w)[a] == self.order@[a]); }
                            }
                        }
                        lemma_distinct_below(self.order@.push(w), n as nat);
                        assert(self.call_stack@.drop_last() =~= frames1.drop_last().push(frame));
                        assert forall|i: int, j: int| 0 <= i < j < self.call_stack@.len() && (#[trigger] self.call_stack@[j]).visited implies
                            idx(self.indices@, (#[trigger] self.call_stack@[i]).node) < idx(self.indices@, self.call_stack@[j].node) by {
                            assert(j < top + 1);
                            assert(self.call_stack@[j] == frames1[j] || j == top);
                        }
                        assert(w != start_v) by {
                            assert(self.order@.len() > base);
                            assert(self.order@[base as int] == start_v);
                        }
                    }
                } else if self.on_stack[w] {
                    let iw = self.indices[w].unwrap();
                    if iw < self.lowlink[v] {
                        self.lowlink.set(v, iw);
                    }
                    proof {
                        assert(self.stack@.contains(w));
                        let k = choose|k: int| 0 <= k < self.stack@.len() && self.stack@[k] == w;
                        assert(idx(self.indices@, self.stack@[k]) >= base);
                    }
                }
    }

    /// Finishes the top frame: closes a component when its node is the root
    /// of one, and passes its low link to the caller.
    #[verifier::rlimit(60)]
    fn finish_top(&mut self, graph: &DirectedGraph, start_v: usize, Ghost(base): Ghost<int>, Ghost(start_order): Ghost<Seq<usize>>)
        requires
            old(self).searching(graph, start_v, base, start_order),
            old(self).call_stack@.len() > 0,
            old(self).call_stack@.last().visited,
            old(self).call_stack@.last().neighbor_idx == graph.adj(old(self).call_stack@.last().node as int).len(),
        ensures
            final(self).searching(graph, start_v, base, start_order),
            final(self).order@ == old(self).order@,
            top_fresh(final(self).call_stack@) == 0,
            frame_work(graph, final(self).call_stack@) < frame_work(graph, old(self).call_stack@),
            forall|v: usize| v < graph.n() && (#[trigger] old(self).indices@[v as int]) is Some ==> final(self).indices@[v as int] == old(self).indices@[v as int],
            exists|pos: int| finish_step(graph, &*old(self), &*final(self), pos),
    {
        let ghost mut gpos: int = 0;
        let n = graph.node_count();
        let top = self.call_stack.len() - 1;
        let frame = self.call_stack[top];
        let v = frame.node;
                let ghost stack0 = self.stack@;
                let ghost sccs0 = self.sccs@;
                let iv = self.indices[v].unwrap();
                if self.lowlink[v] == iv {
                    let ghost pos = choose|p: int| 0 <= p < stack0.len() && stack0[p] == v;
                    proof {
                        gpos = pos;
                        assert(self.on_stack@[v as int]);
                        assert(stack0.contains(v));
                    }
                    let mut scc: Vec<usize> = Vec::new();
                    let ghost st0 = *self;
                    loop
                        invariant_except_break
                            pos < self.stack@.len(),
                        invariant
                            self.sccs == st0.sccs,
                            self.indices == st0.indices,
                            self.lowlink == st0.lowlink,
                            self.call_stack == st0.call_stack,
                            self.order == st0.order,
                            self.index == st0.index,
                            n == graph.n(),
                            self.on_stack@.len() == n,
                            0 <= pos < stack0.len(),
                            stack0[pos] == v,
                            stack0.no_duplicates(),
                            forall|k: int| 0 <= k < stack0.len() ==> #[trigger] stack0[k] < n,
                            self.stack@.len() <= stack0.len(),
                            self.stack@ == stack0.subrange(0, self.stack@.len() as int),
                            scc@.len() == stack0.len() - self.stack@.len(),
                            forall|k: int| 0 <= k < scc@.len() ==> #[trigger] scc@[k] == stack0[stack0.len() - 1 - k],
                            forall|x: int| 0 <= x < n ==> (#[trigger] self.on_stack@[x] <==> self.stack@.contains(x as usize)),
                        ensures
                            self.stack@ == stack0.subrange(0, pos),
                            scc@.len() == stack0.len() - pos,
                            forall|k: int| 0 <= k < scc@.len() ==> #[trigger] scc@[k] == stack0[stack0.len() - 1 - k],
                            forall|x: int| 0 <= x < n ==> (#[trigger] self.on_stack@[x] <==> self.stack@.contains(x as usize)),
                            self.sccs == st0.sccs,
                            self.indices == st0.indices,
                            self.lowlink == st0.lowlink,
                            self.call_stack == st0.call_stack,
                            self.order == st0.order,
                            self.index == st0.index,
                            self.on_stack@.len() == n,
                        decreases self.stack@.len(),
                    {
                        let ghost s_before = self.stack@;
                        let w = self.stack.pop().unwrap();
                        self.on_stack.set(w, false);
                        scc.push(w);
                        proof {
                            assert(w == stack0[s_before.len() - 1]);
                            assert(self.stack@ =~= stack0.subrange(0, self.stack@.len() as int));
                            assert forall|x: int| 0 <= x < n implies (#[trigger] self.on_stack@[x] <==> self.stack@.contains(x as usize)) by {
                                if self.stack@.contains(x as usize) {
                                    let k = choose|k: int| 0 <= k < self.stack@.len() && self.stack@[k] == x as usize;
                                    assert(s_before[k] == x as usize);
                                    assert(stack0[k] != stack0[s_before.len() - 1]);
                                }
                                if x != w as int && s_before.contains(x as usize) {
                                    let k = choose|k: int| 0 <= k < s_before.len() && s_before[k] == x as usize;
                                    assert(k != s_before.len() - 1);
                                    assert(self.stack@[k] == x as usize);
                                }
                            }
                        }
                        if w == v {
                            proof {
                                assert(stack0[self.stack@.len() as int] == stack0[pos]);
                                assert(self.stack@.len() == pos);
                            }
                            break;
                        }
                        proof {
                            assert(stack0[self.stack@.len() as int] != stack0[pos]);
                        }
                    }
                    let ghost scc_view = scc@;
                    self.sccs.push(scc);
                    proof {
                        lemma_pop_component(sccs0, stack0, pos, scc_view);
                        assert(self.sccs@ == sccs0.push(self.sccs@[sccs0.len() as int]));
                        assert(self.sccs@[sccs0.len() as int]@ == scc_view);
                        assert(views(self.sccs@) =~= views(sccs0).push(scc_view));
                        assert(views(self.sccs@).drop_last() =~= views(sccs0));
                        assert(flat(views(self.sccs@)) =~= flat(views(sccs0)) + scc_view);
                        assert(flat(views(self.sccs@)) + self.stack@ =~= flat(views(sccs0)) + scc_view + stack0.subrange(0, pos));
                        assert forall|x: usize| #[trigger] (flat(views(self.sccs@)) + self.stack@).contains(x) <==> self.order@.contains(x) by {
                            assert((flat(views(sccs0)) + stack0).contains(x) <==> self.order@.contains(x));
                            assert((flat(views(sccs0)) + scc_view + stack0.subrange(0, pos)).contains(x)
                                <==> (flat(views(sccs0)) + stack0).contains(x));
                        }
                        assert forall|c: int| 0 <= c < self.sccs@.len() implies #[trigger] self.sccs@[c]@.len() > 0 by {
                            if c < sccs0.len() { assert(self.sccs@[c] == sccs0[c]); }
                        }
                        assert forall|k: int| 0 <= k < self.stack@.len() implies #[trigger] self.stack@[k] < n && self.indices@[self.stack@[k] as int] is Some
                            && idx(self.indices@, self.stack@[k]) >= base by {
                            assert(self.stack@[k] == stack0[k]);
                        }
                        assert forall|a: int, b: int| 0 <= a < b < self.stack@.len() implies
                            idx(self.indices@, #[trigger] self.stack@[a]) < idx(self.indices@, #[trigger] self.stack@[b]) by {
                            assert(self.stack@[a] == stack0[a] && self.stack@[b] == stack0[b]);
                        }
                        assert(self.stack@.len() > 0 ==> self.stack@[0] == start_v) by {
                            if self.stack@.len() > 0 { assert(self.stack@[0] == stack0[0]); }
                        }
                        // frames below the top stay open
                        assert forall|i: int| 0 <= i < top implies self.on_stack@[(#[trigger] self.call_stack@[i]).node as int] by {
                            assert(self.call_stack@[i].visited);
                            let x = self.call_stack@[i].node;
                            assert(idx(self.indices@, x) < idx(self.indices@, v));
                            assert(stack0.contains(x));
                            let k = choose|k: int| 0 <= k < stack0.len() && stack0[k] == x;
                            if k >= pos {
                                if k > pos {
                                    assert(idx(self.indices@, stack0[pos]) < idx(self.indices@, stack0[k]));
                                }
                            }
                            assert(k < pos);
                            assert(self.stack@[k] == x);
                        }
                        // the root closes everything it opened
                        if top == 0 {
                            assert(v == start_v);
                            assert(pos == 0) by {
                                if pos > 0 {
                                    assert(stack0[0] == start_v);
                                }
                            }
                        }
                    }
                }
                let ghost frames2 = self.call_stack@;
                self.call_stack.pop();
                proof {
                    assert(self.call_stack@ =~= frames2.drop_last());
                    assert(frame_work(graph, self.call_stack@) < frame_work(graph, frames2));
                    if self.lowlink@[v as int] == iv {
                        if top == 0 {
                            assert(self.stack@.len() == 0);
                        }
                    } else {
                        // a node whose low link is below its own self.index is never the root
                        if top == 0 {
                            assert(v == start_v);
                            assert(idx(self.indices@, v) == base) by {
                                assert(self.order@[base as int] == start_v);
                                assert(self.indices@[self.order@[base as int] as int] == Some(base as usize));
                            }
                            assert(self.lowlink@[v as int] >= base);
                        }
                    }
                }
                if self.call_stack.len() > 0 {
                    let ptop = self.call_stack.len() - 1;
                    let parent_v = self.call_stack[ptop].node;
                    let lv = self.lowlink[v];
                    if lv < self.lowlink[parent_v] {
                        self.lowlink.set(parent_v, lv);
                    }
                    proof {
                        assert(self.call_stack@[ptop as int].visited);
                        assert(idx(self.indices@, parent_v) >= base) by {
                            assert(self.on_stack@[parent_v as int]);
                            assert(self.stack@.contains(parent_v));
                            let k = choose|k: int| 0 <= k < self.stack@.len() && self.stack@[k] == parent_v;
                        }
                        assert(idx(self.indices@, v) >= base) by {
                            assert(frames2[0].visited);
                            assert(idx(self.indices@, frames2[0].node) < idx(self.indices@, v));
                            assert(frames2[0].node == start_v);
                            assert(self.order@[base as int] == start_v);
                            assert(self.indices@[self.order@[base as int] as int] == Some(base as usize));
                        }
                    }
                }
        proof {
            assert(self.call_stack@ == old(self).call_stack@.drop_last());
            assert(finish_step(graph, &*old(self), &*self, gpos));
        }
    }
}

/// Tarjan's algorithm, run without recursion.
pub struct TarjanSCC;

impl TarjanSCC {
    /// A component finder; it holds no state.
    pub fn new() -> Self {
        TarjanSCC
    }

    /// The strongly connected components of the graph, each listed once; a
    /// component comes after every component that one of its edges leads
    /// into.  The components come in the order in which a depth-first search,
    /// started from the nodes in increasing order and trying out-neighbours
    /// from the first to the last, finishes their roots, the first node it
    /// enters in each; each lists its nodes latest entered first.
    pub fn compute(graph: &DirectedGraph) -> (sccs: Vec<Vec<usize>>)
        requires
            graph.wf(),
        ensures
            is_scc_partition(graph, views(sccs@)),
            forall|c: int, i: int, y: usize| 0 <= c < sccs@.len() && 0 <= i < sccs@[c]@.len()
                && #[trigger] graph.edge(sccs@[c]@[i] as int, y as int) ==>
                exists|c2: int| 0 <= c2 <= c && #[trigger] sccs@[c2]@.contains(y),
            is_tarjan_listing(graph, views(sccs@)),
    {
        let n = graph.node_count();
        if n == 0 {
            let sccs: Vec<Vec<usize>> = Vec::new();
            assert(flat(views(sccs@)) =~= Seq::<usize>::empty());
            assert(views(sccs@) =~= Seq::<Seq<usize>>::empty());
            assert(is_discovery_order(graph, Seq::<usize>::empty()));
            assert(parts_latest_first(Seq::<usize>::empty(), views(sccs@)));
            assert(parts_by_root_finish(graph, Seq::<usize>::empty(), views(sccs@)));
            assert(is_tarjan_listing(graph, views(sccs@)));
            return sccs;
        }
        let mut indices: Vec<Option<usize>> = Vec::new();
        let mut lowlink: Vec<usize> = Vec::new();
        let mut on_stack: Vec<bool> = Vec::new();
        let mut i: usize = 0;
        while i < n
            invariant
                i <= n,
                indices@.len() == i,
                lowlink@.len() == i,
                on_stack@.len() == i,
                forall|v: int| 0 <= v < i ==> #[trigger] indices@[v] is None,
                forall|v: int| 0 <= v < i ==> !#[trigger] on_stack@[v],
            decreases n - i,
        {
            indices.push(None);
            lowlink.push(0);
            on_stack.push(false);
            i = i + 1;
        }
        let mut st = TarjanState {
            index: 0,
            indices,
            lowlink,
            on_stack,
            stack: Vec::new(),
            sccs: Vec::new(),
            call_stack: Vec::new(),
            order: Ghost(Seq::empty()),
        };
        assert(flat(views(st.sccs@)) =~= Seq::<usize>::empty());
        proof {
            lemma_initial(&st, graph);
            lemma_disc_initial(&st, graph);
            lemma_fin_initial(&st, graph);
        }
        let mut start_v: usize = 0;
        while start_v < n
            invariant
                n == graph.n(),
                start_v <= n,
                st.idle(graph),
                reach_inv(&st, graph),
                disc_inv(&st, graph),
                fin_inv(&st, graph),
                forall|v: usize| v < start_v ==> (#[trigger] st.indices@[v as int]) is Some,
            decreases n - start_v,
        {
            let ghost before = st.indices@;
            if st.indices[start_v].is_none() {
                proof {
                    assert forall|z: usize| z < start_v implies #[trigger] st.order@.contains(z) by {
                        assert(st.indices@[z as int] is Some);
                    }
                }
                st.search(graph, start_v);
            }
            proof {
                assert forall|v: usize| v < start_v + 1 implies (#[trigger] st.indices@[v as int]) is Some by {
                    if v < start_v {
                        assert(before[v as int] is Some);
                    }
                }
            }
            start_v = start_v + 1;
        }
        proof {
            let f = flat(views(st.sccs@));
            let order = st.order@;
            lemma_distinct_below(order, n as nat);
            assert forall|v: usize| v < n implies #[trigger] order.contains(v) by {
                assert(st.indices@[v as int] is Some);
            }
            assert forall|v: usize| v < n implies #[trigger] f.contains(v) by {
                assert(order.contains(v));
            }
            assert forall|i: int| 0 <= i < f.len() implies #[trigger] f[i] < n by {
                assert(f.contains(f[i]));
                assert(order.contains(f[i]));
                let k = choose|k: int| 0 <= k < order.len() && order[k] == f[i];
            }
            lemma_covering_len(f, n as nat);
            assert forall|c: int| 0 <= c < views(st.sccs@).len() implies #[trigger] views(st.sccs@)[c].len() > 0 by {
                assert(st.sccs@[c]@.len() > 0);
            }
            lemma_components(&st, graph);
            assert forall|c: int| 0 <= c < views(st.sccs@).len() implies is_component(graph, #[trigger] views(st.sccs@)[c]) by {
                assert(views(st.sccs@)[c] == st.sccs@[c]@);
            }
            lemma_covering_len(order, n as nat);
            lemma_disc_result(&st, graph);
            lemma_fin_result(&st, graph);
            assert(is_discovery_order(graph, order));
            let parts = views(st.sccs@);
            assert forall|c: int, a: int, b: int, i: int, j: int|
                #![trigger order[i], order[j], parts[c][a], parts[c][b]]
                0 <= c < parts.len() && 0 <= a < b < parts[c].len() && 0 <= i < order.len() && 0 <= j < order.len()
                && order[i] == parts[c][a] && order[j] == parts[c][b] implies i > j by {
                assert(parts[c] == st.sccs@[c]@);
                assert(st.indices@[order[i] as int] == Some(i as usize));
                assert(st.indices@[order[j] as int] == Some(j as usize));
            }
            assert(parts_latest_first(order, parts));
            assert forall|c1: int, c2: int, i1: int, i2: int|
                #![trigger order[i1], order[i2], parts[c1], parts[c2]]
                0 <= c1 < c2 < parts.len() && 0 <= i1 < order.len() && 0 <= i2 < order.len()
                && order[i1] == parts[c1].last() && order[i2] == parts[c2].last() implies finishes_before(graph, order, i1, i2) by {
                assert(parts[c1] == st.sccs@[c1]@);
                assert(parts[c2] == st.sccs@[c2]@);
                assert(st.indices@[order[i1] as int] == Some(i1 as usize));
                assert(st.indices@[order[i2] as int] == Some(i2 as usize));
                assert(finishes_before(graph, order, idx(st.indices@, st.sccs@[c1]@.last()), idx(st.indices@, st.sccs@[c2]@.last())));
            }
            assert(parts_by_root_finish(graph, order, parts));
            assert(is_tarjan_listing(graph, parts));
        }
        st.sccs
    }

    /// Whether the graph has a cycle through two or more nodes: whether some
    /// strongly connected component has more than one node.
    pub fn has_cycle(graph: &DirectedGraph) -> (b: bool)
        requires
            graph.wf(),
        ensures
            b <==> exists|x: usize, y: usize| x < graph.n() && y < graph.n() && x != y
                && #[trigger] reaches(graph, x, y) && #[trigger] reaches(graph, y, x),
    {
        let sccs = Self::compute(graph);
        let b = any_multi_node_part(&sccs);
        proof {
            assert(graph.nodes@.len() == graph.nodes.len());
            lemma_multi_part_iff_cycle(graph, views(sccs@));
        }
        b
    }

    /// The number of nodes of the largest strongly connected component, 0
    /// for an empty graph.
    pub fn largest_scc_size(graph: &DirectedGraph) -> (r: usize)
        requires
            graph.wf(),
        ensures
            exists|parts: Seq<Seq<usize>>| #[trigger] is_scc_partition(graph, parts) && r == largest_len(parts),
    {
        let sccs = Self::compute(graph);
        let r = largest_part_len(&sccs);
        assert(is_scc_partition(graph, views(sccs@)));
        r
    }

    /// The number of strongly connected components.
    pub fn scc_count(graph: &DirectedGraph) -> (r: usize)
        requires
            graph.wf(),
        ensures
            exists|parts: Seq<Seq<usize>>| #[trigger] is_scc_partition(graph, parts) && r == parts.len(),
    {
        let sccs = Self::compute(graph);
        assert(is_scc_partition(graph, views(sccs@)));
        sccs.len()
    }
}

impl Default for TarjanSCC {
    /// The same as `new`.
    fn default() -> (r: Self)
        ensures
            r == TarjanSCC,
    {
        TarjanSCC::new()
    }
}

/// `parts` is the list of components that Tarjan's search gives: the
/// strongly connected components, each listing its nodes latest entered
/// first, in the order in which the depth-first search, started from the
/// nodes in increasing order and trying out-neighbours from the first to
/// the last, finishes their roots.
pub open spec fn is_tarjan_listing(g: &DirectedGraph, parts: Seq<Seq<usize>>) -> bool {
    &&& is_scc_partition(g, parts)
    &&& exists|d: Seq<usize>| #[trigger] is_discovery_order(g, d) && parts_latest_first(d, parts)
        && parts_by_root_finish(g, d, parts)
}

/// `order` lists the nodes in the order in which the depth-first search that
/// enters them in the order `d` finishes them.
pub open spec fn nodes_by_finish(g: &DirectedGraph, d: Seq<usize>, order: Seq<usize>) -> bool {
    forall|i: int, j: int, p: int, q: int| #![trigger order[i], order[j], d[p], d[q]]
        0 <= i < j < order.len() && 0 <= p < d.len() && 0 <= q < d.len() && d[p] == order[i] && d[q] == order[j]
        ==> finishes_before(g, d, p, q)
}

/// Within each part the nodes come latest first by their position in `d`.
pub open spec fn parts_latest_first(d: Seq<usize>, parts: Seq<Seq<usize>>) -> bool {
    forall|c: int, a: int, b: int, i: int, j: int|
        #![trigger d[i], d[j], parts[c][a], parts[c][b]]
        0 <= c < parts.len() && 0 <= a < b < parts[c].len() && 0 <= i < d.len() && 0 <= j < d.len()
        && d[i] == parts[c][a] && d[j] == parts[c][b] ==> i > j
}

/// The parts come in the order in which a depth-first search that enters
/// the nodes in the order `d` finishes their roots: the node of each part it
/// entered first, which stands last in the part.
pub open spec fn parts_by_root_finish(g: &DirectedGraph, d: Seq<usize>, parts: Seq<Seq<usize>>) -> bool {
    forall|c1: int, c2: int, i1: int, i2: int|
        #![trigger d[i1], d[i2], parts[c1], parts[c2]]
        0 <= c1 < c2 < parts.len() && 0 <= i1 < d.len() && 0 <= i2 < d.len()
        && d[i1] == parts[c1].last() && d[i2] == parts[c2].last() ==> finishes_before(g, d, i1, i2)
}

/// Every entry of a discovery order is a node.
proof fn lemma_discovery_below(g: &DirectedGraph, d: Seq<usize>, i: int)
    requires
        g.wf(),
        is_discovery_order(g, d),
        0 <= i < d.len(),
    ensures
        d[i] < g.n(),
    decreases i,
{
    let listed = d.take(i);
    assert(discovery_entry(g, listed, d[i]));
    if exists|j: int| 0 <= j < listed.len() && #[trigger] first_unlisted(g, listed, listed[j], d[i])
        && forall|j2: int| j < j2 < listed.len() ==> !has_unlisted(g, listed, #[trigger] listed[j2]) {
        let j = choose|j: int| 0 <= j < listed.len() && #[trigger] first_unlisted(g, listed, listed[j], d[i])
            && forall|j2: int| j < j2 < listed.len() ==> !has_unlisted(g, listed, #[trigger] listed[j2]);
        lemma_discovery_below(g, d, j);
        let x = listed[j];
        assert(x == d[j]);
        let t = choose|t: int| 0 <= t < g.adj(x as int).len() && #[trigger] g.adj(x as int)[t] == d[i] && !listed.contains(d[i])
            && forall|t2: int| 0 <= t2 < t ==> listed.contains(#[trigger] g.adj(x as int)[t2]);
        assert(g.adj(x as int)[t] < g.n());
    }
}

/// A discovery order lists every node once.
proof fn lemma_discovery_perm(g: &DirectedGraph, d: Seq<usize>)
    requires
        g.wf(),
        is_discovery_order(g, d),
        g.n() <= usize::MAX,
    ensures
        d.no_duplicates(),
        forall|i: int| 0 <= i < d.len() ==> #[trigger] d[i] < g.n(),
        forall|x: usize| x < g.n() ==> #[trigger] d.contains(x),
{
    assert forall|i: int| 0 <= i < d.len() implies #[trigger] d[i] < g.n() by {
        lemma_discovery_below(g, d, i);
    }
    assert forall|i: int, k: int| 0 <= i < k < d.len() implies d[i] != d[k] by {
        assert(discovery_entry(g, d.take(k), d[k]));
        assert(d.take(k)[i] == d[i]);
        assert(d.take(k).contains(d[i]));
    }
    lemma_distinct_below(d, g.n() as nat);
}

/// `a` lists its nodes latest first by their position in `d`.
spec fn latest_first_seq(d: Seq<usize>, a: Seq<usize>) -> bool {
    forall|i: int, j: int, p: int, q: int| #![trigger a[i], a[j], d[p], d[q]]
        0 <= i < j < a.len() && 0 <= p < d.len() && 0 <= q < d.len() && d[p] == a[i] && d[q] == a[j] ==> p > q
}

/// Two lists of the same nodes, each latest first, agree on their first
/// `k` entries.
proof fn lemma_latest_first_same(d: Seq<usize>, a: Seq<usize>, b: Seq<usize>, k: int)
    requires
        forall|i: int| 0 <= i < a.len() ==> #[trigger] d.contains(a[i]),
        forall|i: int| 0 <= i < b.len() ==> #[trigger] d.contains(b[i]),
        a.no_duplicates(),
        b.no_duplicates(),
        a.len() == b.len(),
        forall|x: usize| #[trigger] a.contains(x) <==> b.contains(x),
        latest_first_seq(d, a),
        latest_first_seq(d, b),
        0 <= k <= a.len(),
    ensures
        a.take(k) == b.take(k),
    decreases k,
{
    if k > 0 {
        let i = k - 1;
        lemma_latest_first_same(d, a, b, i);
        let x = a[i];
        let y = b[i];
        if x != y {
            assert(a.contains(x));
            assert(b.contains(x));
            let m = choose|m: int| 0 <= m < b.len() && b[m] == x;
            if m < i {
                assert(a.take(i)[m] == b.take(i)[m]);
                assert(a[m] == x);
            }
            assert(b.contains(y));
            assert(a.contains(y));
            let m2 = choose|m: int| 0 <= m < a.len() && a[m] == y;
            if m2 < i {
                assert(a.take(i)[m2] == b.take(i)[m2]);
                assert(b[m2] == y);
            }
            assert(d.contains(a[i]));
            assert(d.contains(b[i]));
            let px = choose|p: int| 0 <= p < d.len() && d[p] == x;
            let py = choose|p: int| 0 <= p < d.len() && d[p] == y;
            assert(d[px] == b[m] && d[py] == b[i]);
            assert(py > px);
            assert(d[px] == a[i] && d[py] == a[m2]);
            assert(px > py);
        }
        assert(a.take(k) =~= a.take(i).push(a[i]));
        assert(b.take(k) =~= b.take(i).push(b[i]));
    } else {
        assert(a.take(0) =~= b.take(0));
    }
}

/// Two parts of lists of the same nodes, each latest first, are the same list.
proof fn lemma_part_same(g: &DirectedGraph, d: Seq<usize>, p1: Seq<Seq<usize>>, c1: int, p2: Seq<Seq<usize>>, c2: int)
    requires
        g.n() <= usize::MAX,
        is_scc_partition(g, p1),
        is_scc_partition(g, p2),
        forall|x: usize| x < g.n() ==> #[trigger] d.contains(x),
        parts_latest_first(d, p1),
        parts_latest_first(d, p2),
        0 <= c1 < p1.len(),
        0 <= c2 < p2.len(),
        p1[c1].to_set() == p2[c2].to_set(),
    ensures
        p1[c1] == p2[c2],
{
    let a = p1[c1];
    let b = p2[c2];
    lemma_flat_part_no_dup(p1, c1);
    lemma_flat_part_no_dup(p2, c2);
    assert forall|i: int| 0 <= i < a.len() implies #[trigger] d.contains(a[i]) by {
        crate::graph::facts::lemma_part_member_below(g.n(), p1, c1, i);
    }
    assert forall|i: int| 0 <= i < b.len() implies #[trigger] d.contains(b[i]) by {
        crate::graph::facts::lemma_part_member_below(g.n(), p2, c2, i);
    }
    assert forall|x: usize| #[trigger] a.contains(x) <==> b.contains(x) by {
        assert(a.to_set().contains(x) == b.to_set().contains(x));
    }
    a.unique_seq_to_set();
    b.unique_seq_to_set();
    assert(latest_first_seq(d, a)) by {
        assert forall|i: int, j: int, p: int, q: int| #![trigger a[i], a[j], d[p], d[q]]
            0 <= i < j < a.len() && 0 <= p < d.len() && 0 <= q < d.len() && d[p] == a[i] && d[q] == a[j] implies p > q by {
            assert(d[p] == p1[c1][i] && d[q] == p1[c1][j]);
        }
    }
    assert(latest_first_seq(d, b)) by {
        assert forall|i: int, j: int, p: int, q: int| #![trigger b[i], b[j], d[p], d[q]]
            0 <= i < j < b.len() && 0 <= p < d.len() && 0 <= q < d.len() && d[p] == b[i] && d[q] == b[j] implies p > q by {
            assert(d[p] == p2[c2][i] && d[q] == p2[c2][j]);
        }
    }
    lemma_latest_first_same(d, a, b, a.len() as int);
    assert(a =~= a.take(a.len() as int));
    assert(b =~= b.take(b.len() as int));
}

/// Two parts of one partition with a common node are the same part.
proof fn lemma_parts_meet(g: &DirectedGraph, p: Seq<Seq<usize>>, c1: int, c2: int, x: usize)
    requires
        is_scc_partition(g, p),
        0 <= c1 < p.len(),
        0 <= c2 < p.len(),
        p[c1].contains(x),
        p[c2].contains(x),
    ensures
        c1 == c2,
{
    crate::graph::facts::lemma_flat_disjoint(p, c1, c2, x);
}

/// Two such lists do not hold two parts in opposite orders.
proof fn lemma_swap_roots(g: &DirectedGraph, d: Seq<usize>, p1: Seq<Seq<usize>>, p2: Seq<Seq<usize>>, i: int, m1: int, m2: int)
    requires
        g.n() <= usize::MAX,
        is_scc_partition(g, p1),
        is_scc_partition(g, p2),
        forall|x: usize| x < g.n() ==> #[trigger] d.contains(x),
        parts_by_root_finish(g, d, p1),
        parts_by_root_finish(g, d, p2),
        0 <= i < m1 < p2.len(),
        i < m2 < p1.len(),
        p1[m2] == p2[i],
    ensures
        p1[i] != p2[m1],
{
    if p1[i] == p2[m1] {
        assert(p1[i].len() > 0 && p2[i].len() > 0);
        let r1 = p1[i].last();
        let r2 = p2[i].last();
        assert(p1[i].contains(r1)) by { assert(p1[i][p1[i].len() - 1] == r1); }
        assert(p1[m2].contains(r2)) by { assert(p2[i][p2[i].len() - 1] == r2); }
        crate::graph::facts::lemma_part_member_below(g.n(), p1, i, p1[i].len() - 1);
        crate::graph::facts::lemma_part_member_below(g.n(), p2, i, p2[i].len() - 1);
        assert(d.contains(r1) && d.contains(r2));
        let q1 = choose|q: int| 0 <= q < d.len() && d[q] == r1;
        let q2 = choose|q: int| 0 <= q < d.len() && d[q] == r2;
        assert(d[q1] == p1[i].last() && d[q2] == p1[m2].last());
        assert(finishes_before(g, d, q1, q2));
        assert(d[q2] == p2[i].last() && d[q1] == p2[m1].last());
        assert(finishes_before(g, d, q2, q1));
        if q1 == q2 {
            lemma_parts_meet(g, p1, i, m2, r1);
        }
    }
}


/// Two lists that are both what Tarjan's search gives agree on their first
/// `c` parts.
#[verifier::rlimit(30)]
proof fn lemma_tarjan_prefix(g: &DirectedGraph, d: Seq<usize>, p1: Seq<Seq<usize>>, p2: Seq<Seq<usize>>, c: int)
    requires
        g.n() <= usize::MAX,
        is_scc_partition(g, p1),
        is_scc_partition(g, p2),
        forall|x: usize| x < g.n() ==> #[trigger] d.contains(x),
        parts_latest_first(d, p1),
        parts_latest_first(d, p2),
        parts_by_root_finish(g, d, p1),
        parts_by_root_finish(g, d, p2),
        p1.len() == p2.len(),
        forall|c1: int| 0 <= c1 < p1.len() ==> exists|c2: int| 0 <= c2 < p2.len()
            && (#[trigger] p1[c1]).to_set() == p2[c2].to_set(),
        forall|c1: int| 0 <= c1 < p2.len() ==> exists|c2: int| 0 <= c2 < p1.len()
            && (#[trigger] p2[c1]).to_set() == p1[c2].to_set(),
        0 <= c <= p1.len(),
    ensures
        p1.take(c) == p2.take(c),
    decreases c,
{
    if c > 0 {
        let i = c - 1;
        lemma_tarjan_prefix(g, d, p1, p2, i);
        assert(p1[i].to_set() == p1[i].to_set());
        let m1 = choose|c2: int| 0 <= c2 < p2.len() && (#[trigger] p1[i]).to_set() == p2[c2].to_set();
        assert(p1[i].len() > 0 && p2[i].len() > 0);
        assert(p1[i].contains(p1[i][0]));
        assert(p2[i].contains(p2[i][0]));
        if m1 < i {
            assert(p1.take(i)[m1] == p2.take(i)[m1]);
            assert(p2[m1].to_set().contains(p1[i][0]));
            lemma_parts_meet(g, p1, i, m1, p1[i][0]);
        } else if m1 == i {
            lemma_part_same(g, d, p1, i, p2, i);
        } else {
            let m2 = choose|c2: int| 0 <= c2 < p1.len() && (#[trigger] p2[i]).to_set() == p1[c2].to_set();
            if m2 < i {
                assert(p1.take(i)[m2] == p2.take(i)[m2]);
                assert(p1[m2].to_set().contains(p2[i][0]));
                lemma_parts_meet(g, p2, i, m2, p2[i][0]);
            } else if m2 == i {
                assert(p2[m1].to_set().contains(p2[i][0]));
                lemma_parts_meet(g, p2, i, m1, p2[i][0]);
            } else {
                lemma_part_same(g, d, p1, i, p2, m1);
                lemma_part_same(g, d, p1, m2, p2, i);
                lemma_swap_roots(g, d, p1, p2, i, m1, m2);
            }
        }
        assert(p1.take(c) =~= p1.take(i).push(p1[i]));
        assert(p2.take(c) =~= p2.take(i).push(p2[i]));
    } else {
        assert(p1.take(0) =~= p2.take(0));
    }
}

/// Tarjan's listing is determined by the graph: two lists of parts that are
/// both what Tarjan's search gives are the same.
pub proof fn lemma_tarjan_listing_unique(g: &DirectedGraph, p1: Seq<Seq<usize>>, p2: Seq<Seq<usize>>)
    requires
        g.wf(),
        g.n() <= usize::MAX,
        is_tarjan_listing(g, p1),
        is_tarjan_listing(g, p2),
    ensures
        p1 == p2,
{
    let d1 = choose|d: Seq<usize>| #[trigger] is_discovery_order(g, d) && parts_latest_first(d, p1)
        && parts_by_root_finish(g, d, p1);
    let d2 = choose|d: Seq<usize>| #[trigger] is_discovery_order(g, d) && parts_latest_first(d, p2)
        && parts_by_root_finish(g, d, p2);
    lemma_discovery_order_unique(g, d1, d2);
    lemma_discovery_perm(g, d1);
    lemma_scc_partitions_agree(g, p1, p2);
    lemma_scc_partitions_agree(g, p2, p1);
    lemma_tarjan_prefix(g, d1, p1, p2, p1.len() as int);
    assert(p1 =~= p1.take(p1.len() as int));
    assert(p2 =~= p2.take(p2.len() as int));
}

/// Some part has more than one node.
pub open spec fn has_multi_node_part(parts: Seq<Seq<usize>>) -> bool {
    exists|c: int| 0 <= c < parts.len() && #[trigger] parts[c].len() > 1
}

/// The largest length among the parts, 0 when there are none.
pub open spec fn largest_len(parts: Seq<Seq<usize>>) -> nat
    decreases parts.len(),
{
    if parts.len() == 0 {
        0
    } else {
        let m = largest_len(parts.drop_last());
        if parts.last().len() > m { parts.last().len() } else { m }
    }
}

/// Whether some list holds more than one node.
pub fn any_multi_node_part(parts: &Vec<Vec<usize>>) -> (b: bool)
    ensures
        b == has_multi_node_part(views(parts@)),
{
    let mut i: usize = 0;
    while i < parts.len()
        invariant
            i <= parts@.len(),
            forall|c: int| 0 <= c < i ==> parts@[c]@.len() <= 1,
        decreases parts@.len() - i,
    {
        if parts[i].len() > 1 {
            assert(views(parts@)[i as int].len() > 1);
            return true;
        }
        i = i + 1;
    }
    assert forall|c: int| 0 <= c < views(parts@).len() implies !(#[trigger] views(parts@)[c].len() > 1) by {
        assert(parts@[c]@.len() <= 1);
    }
    false
}

/// The length of the longest list, 0 when there is none.
pub fn largest_part_len(parts: &Vec<Vec<usize>>) -> (r: usize)
    ensures
        r == largest_len(views(parts@)),
{
    let mut best: usize = 0;
    let mut i: usize = 0;
    while i < parts.len()
        invariant
            i <= parts@.len(),
            best == largest_len(views(parts@).take(i as int)),
        decreases parts@.len() - i,
    {
        proof {
            assert(views(parts@).take(i + 1).drop_last() =~= views(parts@).take(i as int));
            assert(views(parts@).take(i + 1).last() == parts@[i as int]@);
        }
        if parts[i].len() > best {
            best = parts[i].len();
        }
        i = i + 1;
    }
    assert(views(parts@).take(i as int) =~= views(parts@));
    best
}

impl TarjanState {
    /// One depth-first search from `start_v`, which has not been entered:
    /// enters every node reachable from it that had not been entered, and
    /// closes a component each time the root of one finishes.
    #[verifier::rlimit(60)]
    fn search(&mut self, graph: &DirectedGraph, start_v: usize)
        requires
            old(self).idle(graph),
            reach_inv(&*old(self), graph),
            disc_inv(&*old(self), graph),
            fin_inv(&*old(self), graph),
            start_v < graph.n(),
            old(self).indices@[start_v as int] is None,
            forall|z: usize| z < start_v ==> #[trigger] old(self).order@.contains(z),
        ensures
            final(self).idle(graph),
            reach_inv(&*final(self), graph),
            disc_inv(&*final(self), graph),
            fin_inv(&*final(self), graph),
            final(self).indices@[start_v as int] is Some,
            forall|v: usize| v < graph.n() && (#[trigger] old(self).indices@[v as int]) is Some ==> final(self).indices@[v as int] is Some,
    {
        let n = graph.node_count();
        let ghost base = self.order@.len() as int;
        let ghost start_order = self.order@;
        let ghost indices0 = self.indices@;
        let ghost s_init = *self;
        self.call_stack.push(TarjanFrame { node: start_v, neighbor_idx: 0, visited: false });
        proof {
            assert(self.call_stack@ =~= seq![TarjanFrame { node: start_v, neighbor_idx: 0, visited: false }]);
            lemma_start_keeps(graph, &s_init, &*self, start_v);
            assert(flat(views(self.sccs@)) + self.stack@ =~= flat(views(self.sccs@)));
            assert(!self.order@.contains(start_v)) by {
                if self.order@.contains(start_v) {
                    let k = choose|k: int| 0 <= k < self.order@.len() && self.order@[k] == start_v;
                    assert(self.indices@[self.order@[k] as int] == Some(k as usize));
                }
            }
            assert(self.order@.push(start_v).no_duplicates()) by {
                assert forall|a: int, b: int| 0 <= a < b < self.order@.push(start_v).len()
                    implies self.order@.push(start_v)[a] != self.order@.push(start_v)[b] by {
                    if b == self.order@.len() { assert(self.order@.push(start_v)[a] == self.order@[a]); }
                }
            }
            assert forall|i: int| 0 <= i < self.order@.push(start_v).len() implies #[trigger] self.order@.push(start_v)[i] < n by {
                if i < self.order@.len() { assert(self.order@.push(start_v)[i] == self.order@[i]); }
            }
            lemma_distinct_below(self.order@.push(start_v), n as nat);
            lemma_disc_start(graph, &s_init, &*self, start_v);
            lemma_fin_start(graph, &s_init, &*self, start_v);
        }
        while self.call_stack.len() > 0
            invariant
                n == graph.n(),
                self.searching(graph, start_v, base, start_order),
                reach_inv(&*self, graph),
                disc_inv(&*self, graph),
                fin_inv(&*self, graph),
                forall|v: usize| v < n && (#[trigger] indices0[v as int]) is Some ==> self.indices@[v as int] is Some,
            decreases n - self.order@.len() - top_fresh(self.call_stack@), frame_work(graph, self.call_stack@),
        {
            proof { lemma_frame_work_nonneg(graph, self.call_stack@); }
            let top = self.call_stack.len() - 1;
            let ghost fr0 = self.call_stack@;
            let ghost indices1 = self.indices@;
            if !self.call_stack[top].visited {
                let ghost s_a = *self;
                self.enter_top(graph, start_v, Ghost(base), Ghost(start_order));
                proof {
                    assert(frame_work(graph, self.call_stack@) == frame_work(graph, fr0));
                    lemma_enter_keeps(graph, &s_a, &*self, start_v, base, start_order);
                    let w = s_a.call_stack@.last().node;
                    assert(s_a.call_stack@[top as int] == s_a.call_stack@.last());
                    assert(!s_a.order@.contains(w)) by {
                        if s_a.order@.contains(w) {
                            let k = choose|k: int| 0 <= k < s_a.order@.len() && s_a.order@[k] == w;
                            assert(s_a.indices@[s_a.order@[k] as int] == Some(k as usize));
                        }
                    }
                    assert forall|c: int, a: int| 0 <= c < s_a.sccs@.len() && 0 <= a < s_a.sccs@[c]@.len() implies
                        s_a.order@.contains(#[trigger] s_a.sccs@[c]@[a]) by {
                        assert(views(s_a.sccs@)[c] == s_a.sccs@[c]@);
                        lemma_flat_contains(views(s_a.sccs@), c, a);
                        lemma_concat_contains(flat(views(s_a.sccs@)), s_a.stack@, s_a.sccs@[c]@[a]);
                    }
                    lemma_disc_enter(graph, &s_a, &*self);
                    lemma_fin_enter(graph, &s_a, &*self, start_v, base, start_order);
                }
            }
            let frame = self.call_stack[top];
            let ghost s_b = *self;
            if frame.neighbor_idx < graph.adjacency[frame.node].len() {
                self.advance_top(graph, start_v, Ghost(base), Ghost(start_order));
                proof {
                    lemma_advance_keeps(graph, &s_b, &*self, start_v, base, start_order);
                    assert(s_b.call_stack@.last() == frame);
                    lemma_disc_advance(graph, &s_b, &*self, start_v, base, start_order);
                    lemma_fin_advance(graph, &s_b, &*self, start_v, base, start_order);
                }
            } else {
                self.finish_top(graph, start_v, Ghost(base), Ghost(start_order));
                proof {
                    let pos = choose|pos: int| finish_step(graph, &s_b, &*self, pos);
                    lemma_finish_keeps(graph, &s_b, &*self, pos, start_v, base, start_order);
                    lemma_disc_finish(graph, &s_b, &*self, pos, start_v, base, start_order);
                    lemma_closed_off_stack(graph, &s_b, start_v, base, start_order);
                    lemma_fin_finish(graph, &s_b, &*self, pos, start_v, base, start_order);
                }
            }
            proof {
                lemma_frame_work_nonneg(graph, self.call_stack@);
                assert forall|v: usize| v < n && (#[trigger] indices0[v as int]) is Some implies self.indices@[v as int] is Some by {
                    assert(indices1[v as int] is Some);
                }
            }
        }
        proof {
            assert(flat(views(self.sccs@)) + self.stack@ =~= flat(views(self.sccs@)));
        }
    }
}


/// The nodes of the components closed are entered and off the stack.
proof fn lemma_closed_off_stack(
    g: &DirectedGraph,
    s0: &TarjanState,
    start_v: usize,
    base: int,
    start_order: Seq<usize>,
)
    requires
        s0.searching(g, start_v, base, start_order),
    ensures
        forall|c: int, a: int| 0 <= c < s0.sccs@.len() && 0 <= a < s0.sccs@[c]@.len() ==>
            !s0.stack@.contains(#[trigger] s0.sccs@[c]@[a]) && s0.order@.contains(s0.sccs@[c]@[a]),
{
    assert forall|c: int, a: int| 0 <= c < s0.sccs@.len() && 0 <= a < s0.sccs@[c]@.len() implies
        !s0.stack@.contains(#[trigger] s0.sccs@[c]@[a]) && s0.order@.contains(s0.sccs@[c]@[a]) by {
        let f = flat(views(s0.sccs@));
        let x = s0.sccs@[c]@[a];
        assert(views(s0.sccs@)[c] == s0.sccs@[c]@);
        lemma_flat_contains(views(s0.sccs@), c, a);
        lemma_concat_contains(f, s0.stack@, x);
        if s0.stack@.contains(x) {
            let i1 = choose|i: int| 0 <= i < f.len() && f[i] == x;
            let i2 = choose|i: int| 0 <= i < s0.stack@.len() && s0.stack@[i] == x;
            assert((f + s0.stack@)[i1] == (f + s0.stack@)[f.len() + i2]);
        }
    }
}


/// Taking `v` from the stack of the walk along reversed edges and pushing its
/// unmarked predecessors keeps the stack equal to what was pushed and not
/// yet taken, in order.
proof fn lemma_walk_after_take(
    g: &DirectedGraph,
    bl: Seq<usize>,
    s: usize,
    scc0: Seq<usize>,
    v: usize,
    stack0: Seq<usize>,
    stack1: Seq<usize>,
    st: Seq<usize>,
    pre: Seq<usize>,
)
    requires
        stack0 == unlisted(rev_pushed(g, bl, s, scc0, scc0.len()), scc0),
        forall|x: usize| #[trigger] rev_pushed(g, bl, s, scc0, scc0.len()).contains(x) <==> (scc0.contains(x) || stack0.contains(x)),
        rev_pushed(g, bl, s, scc0, scc0.len()).no_duplicates(),
        forall|i: int| 0 <= i < scc0.len() ==>
            unlisted(#[trigger] rev_pushed(g, bl, s, scc0, i as nat), scc0.take(i)).len() > 0
            && scc0[i] == unlisted(rev_pushed(g, bl, s, scc0, i as nat), scc0.take(i)).last(),
        stack0.len() > 0,
        stack0.last() == v,
        stack1 == stack0.drop_last(),
        st == stack1 + unlisted(g.radj(v as int), bl + rev_pushed(g, bl, s, scc0, scc0.len())),
        (pre + st).no_duplicates(),
    ensures
        st == unlisted(rev_pushed(g, bl, s, scc0.push(v), scc0.len() + 1), scc0.push(v)),
        forall|x: usize| #[trigger] rev_pushed(g, bl, s, scc0.push(v), scc0.len() + 1).contains(x)
            <==> (scc0.push(v).contains(x) || st.contains(x)),
        rev_pushed(g, bl, s, scc0.push(v), scc0.len() + 1).no_duplicates(),
        forall|i: int| 0 <= i < scc0.push(v).len() ==>
            unlisted(#[trigger] rev_pushed(g, bl, s, scc0.push(v), i as nat), scc0.push(v).take(i)).len() > 0
            && scc0.push(v)[i] == unlisted(rev_pushed(g, bl, s, scc0.push(v), i as nat), scc0.push(v).take(i)).last(),
{
    let scc1 = scc0.push(v);
    let k0 = scc0.len();
    let p0 = rev_pushed(g, bl, s, scc0, k0);
    let nn = unlisted(g.radj(v as int), bl + p0);
    lemma_rev_pushed_prefix(g, bl, s, scc1, scc0, k0);
    assert(scc1[k0 as int] == v);
    let p1 = rev_pushed(g, bl, s, scc1, k0 + 1);
    assert(p1 == p0 + nn);
    lemma_unlisted_take_last(p0, scc0);
    assert(unlisted(p0, scc1) == stack1);
    // what is pushed now was neither marked nor pushed before
    assert forall|k: int| 0 <= k < nn.len() implies !(bl + p0).contains(#[trigger] nn[k]) by {
        assert(nn.contains(nn[k]));
        lemma_unlisted_member(g.radj(v as int), bl + p0, nn[k]);
    }
    assert forall|x: usize| #[trigger] scc1.contains(x) implies p0.contains(x) by {
        lemma_push_contains(scc0, v, x);
        if x == v {
            assert(stack0.contains(v)) by { assert(stack0[stack0.len() - 1] == v); }
        }
    }
    assert forall|k: int| 0 <= k < nn.len() implies !scc1.contains(#[trigger] nn[k]) by {
        if scc1.contains(nn[k]) {
            assert(p0.contains(nn[k]));
            lemma_concat_contains(bl, p0, nn[k]);
        }
    }
    lemma_unlisted_none(nn, scc1);
    crate::graph::depth_first::lemma_unlisted_concat(p0, nn, scc1);
    // the contents
    assert forall|x: usize| #[trigger] p1.contains(x) <==> (scc1.contains(x) || st.contains(x)) by {
        lemma_concat_contains(p0, nn, x);
        lemma_concat_contains(stack1, nn, x);
        lemma_push_contains(scc0, v, x);
        assert(stack0 == stack1.push(v)) by { assert(stack0 =~= stack0.drop_last().push(stack0.last())); }
        lemma_push_contains(stack1, v, x);
    }
    // no repeats
    assert(st.no_duplicates()) by {
        assert forall|a: int, b: int| 0 <= a < b < st.len() implies st[a] != st[b] by {
            assert((pre + st)[pre.len() + a] == st[a]);
            assert((pre + st)[pre.len() + b] == st[b]);
        }
    }
    assert(p1.no_duplicates()) by {
        assert forall|a: int, b: int| 0 <= a < b < p1.len() implies p1[a] != p1[b] by {
            if b >= p0.len() {
                assert(p1[b] == nn[b - p0.len()]);
                assert((stack1 + nn)[stack1.len() + (b - p0.len())] == nn[b - p0.len()]);
                if a >= p0.len() {
                    assert(p1[a] == nn[a - p0.len()]);
                    assert((stack1 + nn)[stack1.len() + (a - p0.len())] == nn[a - p0.len()]);
                } else {
                    assert(p1[a] == p0[a]);
                    assert(p0.contains(p0[a]));
                    lemma_concat_contains(bl, p0, p0[a]);
                }
            } else {
                assert(p1[a] == p0[a] && p1[b] == p0[b]);
            }
        }
    }
    // the order in which the nodes were taken
    assert forall|i: int| 0 <= i < scc1.len() implies
        unlisted(#[trigger] rev_pushed(g, bl, s, scc1, i as nat), scc1.take(i)).len() > 0
        && scc1[i] == unlisted(rev_pushed(g, bl, s, scc1, i as nat), scc1.take(i)).last() by {
        lemma_rev_pushed_prefix(g, bl, s, scc1, scc0, i as nat);
        if i < k0 {
            assert(scc1.take(i) =~= scc0.take(i));
            assert(scc1[i] == scc0[i]);
            assert(rev_pushed(g, bl, s, scc0, i as nat) == rev_pushed(g, bl, s, scc0, i as nat));
        } else {
            assert(scc1.take(i) =~= scc0);
            assert(stack0.len() > 0);
        }
    }
}

/// Kosaraju's algorithm, run without recursion.
pub struct KosarajuSCC;

/// `s` has no repeated entry, and only nodes below `n`.
spec fn distinct_below(s: Seq<usize>, n: int) -> bool {
    s.no_duplicates() && forall|i: int| 0 <= i < s.len() ==> #[trigger] s[i] < n
}

/// Appending an absent node below `n` keeps a sequence distinct and below `n`.
proof fn lemma_push_distinct(s: Seq<usize>, n: int, x: usize)
    requires
        distinct_below(s, n),
        !s.contains(x),
        x < n,
    ensures
        distinct_below(s.push(x), n),
        forall|y: usize| #[trigger] s.push(x).contains(y) <==> (s.contains(y) || y == x),
{
    assert forall|i: int| 0 <= i < s.push(x).len() implies #[trigger] s.push(x)[i] < n by {
        if i < s.len() { assert(s.push(x)[i] == s[i]); }
    }
    assert forall|a: int, b: int| 0 <= a < b < s.push(x).len() implies s.push(x)[a] != s.push(x)[b] by {
        if b == s.len() { assert(s.push(x)[a] == s[a]); }
    }
    assert forall|y: usize| #[trigger] s.push(x).contains(y) <==> (s.contains(y) || y == x) by {
        if s.push(x).contains(y) {
            let k = choose|k: int| 0 <= k < s.push(x).len() && s.push(x)[k] == y;
            if k < s.len() { assert(s[k] == y); }
        }
        if s.contains(y) {
            let k = choose|k: int| 0 <= k < s.len() && s[k] == y;
            assert(s.push(x)[k] == y);
        }
        if y == x { assert(s.push(x)[s.len() as int] == y); }
    }
}

impl KosarajuSCC {
    /// A component finder; it holds no state.
    pub fn new() -> Self {
        KosarajuSCC
    }

    /// The strongly connected components of the graph, each listed once: a
    /// depth-first search finishes the nodes, then walks along reversed edges
    /// from the latest finished node left collect them, so that a component
    /// comes after every component that has an edge into it.
    pub fn compute(graph: &DirectedGraph) -> (sccs: Vec<Vec<usize>>)
        requires
            graph.wf(),
        ensures
            is_scc_partition(graph, views(sccs@)),
            is_kosaraju_listing(graph, views(sccs@)),
            forall|c: int, i: int, x: usize| 0 <= c < sccs@.len() && 0 <= i < sccs@[c]@.len()
                && #[trigger] graph.edge(x as int, sccs@[c]@[i] as int) ==>
                exists|c2: int| 0 <= c2 <= c && #[trigger] sccs@[c2]@.contains(x),
    {
        let n = graph.node_count();
        if n == 0 {
            let sccs: Vec<Vec<usize>> = Vec::new();
            assert(flat(views(sccs@)) =~= Seq::<usize>::empty());
            assert(views(sccs@) =~= Seq::<Seq<usize>>::empty());
            let ghost d = Seq::<usize>::empty();
            proof {
                assert(is_discovery_order(graph, d));
                assert(is_scc_partition(graph, views(sccs@)));
                assert(parts_by_reverse_walks(graph, d, views(sccs@)));
            }
            return sccs;
        }
        let order = Self::finish_order(graph);
        let ghost d = choose|d: Seq<usize>| #[trigger] is_discovery_order(graph, d) && nodes_by_finish(graph, d, order@);
        let mut visited: Vec<bool> = Vec::new();
        let mut i: usize = 0;
        while i < n
            invariant
                i <= n,
                visited@.len() == i,
                forall|v: int| 0 <= v < i ==> !#[trigger] visited@[v],
            decreases n - i,
        {
            visited.push(false);
            i = i + 1;
        }
        let mut sccs: Vec<Vec<usize>> = Vec::new();
        let ghost mut marked: Seq<usize> = Seq::empty();
        assert(flat(views(sccs@)) =~= Seq::<usize>::empty());
        let mut r = order.len();
        while r > 0
            invariant
                graph.wf(),
                n == graph.n(),
                r <= order@.len(),
                order@.len() == n,
                distinct_below(order@, n as int),
                visited@.len() == n,
                distinct_below(marked, n as int),
                forall|v: usize| v < n ==> (#[trigger] visited@[v as int] <==> marked.contains(v)),
                flat(views(sccs@)).no_duplicates(),
                forall|x: usize| #[trigger] flat(views(sccs@)).contains(x) <==> marked.contains(x),
                forall|k: int| r <= k < n ==> #[trigger] visited@[order@[k] as int],
                forall|c: int| 0 <= c < sccs@.len() ==> #[trigger] sccs@[c]@.len() > 0,
                finish_law(graph, order@),
                is_discovery_order(graph, d),
                nodes_by_finish(graph, d, order@),
                parts_by_reverse_walks(graph, d, views(sccs@)),
                forall|c: int| 0 <= c < sccs@.len() ==> is_component(graph, #[trigger] sccs@[c]@),
                forall|c: int, i: int, x: usize| 0 <= c < sccs@.len() && 0 <= i < sccs@[c]@.len()
                    && #[trigger] graph.edge(x as int, sccs@[c]@[i] as int) ==>
                    exists|c2: int| 0 <= c2 <= c && #[trigger] sccs@[c2]@.contains(x),
            decreases r,
        {
            r = r - 1;
            let start_v = order[r];
            let ghost marked_before = marked;
            let ghost visited_before = visited@;
            proof { assert(order@[r as int] < n); }
            if !visited[start_v] {
                let ghost marked0 = marked;
                let ghost sccs0 = sccs@;
                proof {
                    assert forall|k: int| r < k < order@.len() implies flat(views(sccs0)).contains(#[trigger] order@[k]) by {
                        assert(visited@[order@[k] as int]);
                    }
                }
                let mut scc: Vec<usize> = Vec::new();
                let mut stack: Vec<usize> = Vec::new();
                stack.push(start_v);
                visited.set(start_v, true);
                proof {
                    lemma_push_distinct(marked, n as int, start_v);
                    marked = marked.push(start_v);
                    lemma_reaches_self(graph, start_v);
                    assert(flat(views(sccs@)) + scc@ + stack@ =~= flat(views(sccs@)).push(start_v));
                    let f0 = flat(views(sccs@));
                    assert(!f0.contains(start_v));
                    assert forall|i: int, j: int| 0 <= i < j < f0.push(start_v).len() implies f0.push(start_v)[i] != f0.push(start_v)[j] by {
                        if j == f0.len() { assert(f0.contains(f0[i])); } else { assert(f0.push(start_v)[i] == f0[i] && f0.push(start_v)[j] == f0[j]); }
                    }
                    assert forall|x: usize| #[trigger] (f0 + scc@ + stack@).contains(x) <==> marked.contains(x) by {
                        lemma_push_contains(f0, start_v, x);
                    }
                    let p0 = rev_pushed(graph, flat(views(sccs0)), start_v, scc@, 0);
                    assert(p0 == seq![start_v]);
                    assert(stack@ =~= seq![start_v]);
                    assert(unlisted(Seq::<usize>::empty(), scc@) =~= Seq::<usize>::empty());
                    assert(unlisted(p0, scc@) =~= seq![start_v]) by {
                        assert(p0.drop_last() =~= Seq::<usize>::empty());
                        assert(!scc@.contains(start_v));
                    }
                    assert forall|x: usize| #[trigger] p0.contains(x) <==> (scc@.contains(x) || stack@.contains(x)) by {
                        if p0.contains(x) { assert(p0[0] == x); assert(stack@[0] == x); }
                        if stack@.contains(x) { assert(stack@[0] == x); assert(p0[0] == x); }
                    }
                }
                loop
                    invariant
                        graph.wf(),
                        n == graph.n(),
                        start_v < n,
                        visited@.len() == n,
                        distinct_below(marked, n as int),
                        forall|v: usize| v < n ==> (#[trigger] visited@[v as int] <==> marked.contains(v)),
                        sccs@ == sccs0,
                        (flat(views(sccs0)) + scc@ + stack@).no_duplicates(),
                        forall|x: usize| #[trigger] (flat(views(sccs0)) + scc@ + stack@).contains(x) <==> marked.contains(x),
                        forall|k: int| 0 <= k < stack@.len() ==> #[trigger] stack@[k] < n,
                        forall|k: int| 0 <= k < stack@.len() ==> reaches(graph, #[trigger] stack@[k], start_v),
                        forall|k: int| 0 <= k < scc@.len() ==> reaches(graph, #[trigger] scc@[k], start_v),
                        scc@.len() == 0 ==> stack@ == seq![start_v],
                        scc@.len() > 0 ==> scc@[0] == start_v,
                        marked0.len() < marked.len(),
                        forall|k: int| 0 <= k < marked0.len() ==> marked[k] == marked0[k],
                        visited@[start_v as int],
                        forall|y: usize, x: usize| #![trigger scc@.contains(y), graph.edge(x as int, y as int)]
                            scc@.contains(y) && graph.edge(x as int, y as int) ==> marked.contains(x),
                        stack@ == unlisted(rev_pushed(graph, flat(views(sccs0)), start_v, scc@, scc@.len()), scc@),
                        forall|x: usize| #[trigger] rev_pushed(graph, flat(views(sccs0)), start_v, scc@, scc@.len()).contains(x)
                            <==> (scc@.contains(x) || stack@.contains(x)),
                        rev_pushed(graph, flat(views(sccs0)), start_v, scc@, scc@.len()).no_duplicates(),
                        forall|i: int| 0 <= i < scc@.len() ==>
                            unlisted(#[trigger] rev_pushed(graph, flat(views(sccs0)), start_v, scc@, i as nat), scc@.take(i)).len() > 0
                            && scc@[i] == unlisted(rev_pushed(graph, flat(views(sccs0)), start_v, scc@, i as nat), scc@.take(i)).last(),
                    ensures
                        stack@.len() == 0,
                        rev_walk(graph, flat(views(sccs0)), start_v, scc@),
                        scc@.len() > 0,
                        forall|y: usize, x: usize| #![trigger scc@.contains(y), graph.edge(x as int, y as int)]
                            scc@.contains(y) && graph.edge(x as int, y as int) ==> marked.contains(x),
                        (flat(views(sccs0)) + scc@ + stack@).no_duplicates(),
                        forall|x: usize| #[trigger] (flat(views(sccs0)) + scc@ + stack@).contains(x) <==> marked.contains(x),
                        forall|k: int| 0 <= k < scc@.len() ==> reaches(graph, #[trigger] scc@[k], start_v),
                        scc@[0] == start_v,
                        distinct_below(marked, n as int),
                    decreases n - marked.len(), stack@.len(),
                {
                    proof { crate::graph::facts::lemma_distinct_below(marked, n as nat); }
                    let ghost stack0 = stack@;
                    let ghost scc0 = scc@;
                    let ghost m0 = marked;
                    let top = stack.pop();
                    let v = match top {
                        Some(v) => v,
                        None => break,
                    };
                    proof {
                        assert(stack0[stack0.len() - 1] == v);
                        assert(stack@ =~= stack0.drop_last());
                        assert(flat(views(sccs0)) + scc0 + stack0 =~= (flat(views(sccs0)) + scc0 + stack@).push(v));
                        assert(flat(views(sccs0)) + scc0.push(v) + stack@ =~= (flat(views(sccs0)) + scc0).push(v) + stack@);
                    }
                    scc.push(v);
                    proof {
                        let a = flat(views(sccs0)) + scc0;
                        let b = stack@;
                        assert((a + b).push(v).no_duplicates());
                        assert forall|i: int, j: int| 0 <= i < j < (a.push(v) + b).len() implies
                            (a.push(v) + b)[i] != (a.push(v) + b)[j] by {
                            let w = (a + b).push(v);
                            let ii = if i < a.len() { i } else if i == a.len() { w.len() - 1 } else { i - 1 };
                            let jj = if j < a.len() { j } else if j == a.len() { w.len() - 1 } else { j - 1 };
                            assert((a.push(v) + b)[i] == w[ii]);
                            assert((a.push(v) + b)[j] == w[jj]);
                            assert(ii != jj);
                        }
                        assert forall|x: usize| #[trigger] (a.push(v) + b).contains(x) <==> (a + b).push(v).contains(x) by {
                            lemma_concat_contains(a.push(v), b, x);
                            lemma_concat_contains(a, b, x);
                            lemma_push_contains(a, v, x);
                            lemma_push_contains(a + b, v, x);
                        }
                        assert(scc@.len() > 0 ==> scc@[0] == start_v) by {
                            if scc0.len() == 0 { assert(v == start_v); }
                        }
                        assert forall|k: int| 0 <= k < scc@.len() implies reaches(graph, #[trigger] scc@[k], start_v) by {
                            if k < scc0.len() { assert(scc@[k] == scc0[k]); } else { assert(stack0[stack0.len() - 1] == v); }
                        }
                    }
                    let ghost stack1 = stack@;
                    let ghost pre = flat(views(sccs0)) + scc@;
                    let ghost bl = flat(views(sccs0));
                    let ghost p0 = rev_pushed(graph, bl, start_v, scc0, scc0.len());
                    proof {
                        assert(stack0.last() == v);
                        assert(unlisted(p0, scc0).last() == v);
                        lemma_unlisted_take_last(p0, scc0);
                        assert(scc@ == scc0.push(v));
                        assert(unlisted(p0, scc@) == stack1);
                        assert forall|x: usize| #[trigger] (pre + stack1).contains(x) <==> (bl + p0).contains(x) by {
                            lemma_concat_contains(pre, stack1, x);
                            lemma_concat_contains(bl, scc@, x);
                            lemma_concat_contains(bl, p0, x);
                            lemma_push_contains(scc0, v, x);
                            assert(p0.contains(x) <==> (scc0.contains(x) || stack0.contains(x)));
                            assert(stack0 == stack1.push(v));
                            lemma_push_contains(stack1, v, x);
                        }
                    }
                    proof {
                        assert forall|y: usize, x: usize| #![trigger scc@.contains(y), graph.edge(x as int, y as int)]
                            scc@.contains(y) && y != v && graph.edge(x as int, y as int) implies marked.contains(x) by {
                            lemma_push_contains(scc0, v, y);
                        }
                    }
                    let len = graph.reverse_adjacency[v].len();
                    let mut j: usize = 0;
                    while j < len
                        invariant
                            graph.wf(),
                            n == graph.n(),
                            v < n,
                            start_v < n,
                            reaches(graph, v, start_v),
                            len == graph.radj(v as int).len(),
                            j <= len,
                            visited@.len() == n,
                            distinct_below(marked, n as int),
                            forall|x: usize| x < n ==> (#[trigger] visited@[x as int] <==> marked.contains(x)),
                            (pre + stack@).no_duplicates(),
                            forall|x: usize| #[trigger] (pre + stack@).contains(x) <==> marked.contains(x),
                            forall|k: int| 0 <= k < stack@.len() ==> #[trigger] stack@[k] < n,
                            forall|k: int| 0 <= k < stack@.len() ==> reaches(graph, #[trigger] stack@[k], start_v),
                            m0.len() <= marked.len(),
                            forall|k: int| 0 <= k < m0.len() ==> marked[k] == m0[k],
                            stack@.len() == stack1.len() + (marked.len() - m0.len()),
                            visited@[start_v as int],
                            forall|i: int| 0 <= i < j ==> marked.contains(#[trigger] graph.radj(v as int)[i]),
                            forall|y: usize, x: usize| #![trigger scc@.contains(y), graph.edge(x as int, y as int)]
                                scc@.contains(y) && y != v && graph.edge(x as int, y as int) ==> marked.contains(x),
                            stack@ == stack1 + unlisted(graph.radj(v as int).take(j as int), bl + p0),
                            forall|x: usize| #[trigger] (pre + stack1).contains(x) <==> (bl + p0).contains(x),
                            pre == bl + scc@,
                        decreases len - j,
                    {
                        let u = graph.reverse_adjacency[v][j];
                        proof {
                            assert(graph.radj(v as int)[j as int] == u);
                            assert(u < n);
                            assert(graph.radj(v as int).contains(u));
                            assert(graph.adj(u as int).contains((v as int) as usize) <==> graph.radj(v as int).contains((u as int) as usize));
                            assert(graph.edge(u as int, v as int));
                        }
                        let ghost pushed = unlisted(graph.radj(v as int).take(j as int), bl + p0);
                        proof {
                            assert(graph.radj(v as int).take(j + 1).drop_last() =~= graph.radj(v as int).take(j as int));
                            assert(graph.radj(v as int).take(j + 1).last() == u);
                            assert(!pushed.contains(u)) by {
                                if pushed.contains(u) {
                                    lemma_unlisted_member(graph.radj(v as int).take(j as int), bl + p0, u);
                                    let i = choose|i: int| 0 <= i < j && graph.radj(v as int)[i] == u;
                                    assert(graph.radj(v as int).no_duplicates());
                                }
                            }
                            assert(marked.contains(u) <==> (bl + p0).contains(u)) by {
                                lemma_concat_contains(pre, stack@, u);
                                lemma_concat_contains(stack1, pushed, u);
                                lemma_concat_contains(pre, stack1, u);
                            }
                        }
                        if !visited[u] {
                            let ghost s0 = stack@;
                            let ghost mk0 = marked;
                            visited.set(u, true);
                            stack.push(u);
                            proof {
                                lemma_push_distinct(marked, n as int, u);
                                marked = marked.push(u);
                                assert forall|i: int| 0 <= i < j + 1 implies marked.contains(#[trigger] graph.radj(v as int)[i]) by {
                                    lemma_push_contains(mk0, u, graph.radj(v as int)[i]);
                                }
                                assert forall|y: usize, x: usize| #![trigger scc@.contains(y), graph.edge(x as int, y as int)]
                                    scc@.contains(y) && y != v && graph.edge(x as int, y as int) implies marked.contains(x) by {
                                    lemma_push_contains(mk0, u, x);
                                }
                                lemma_reaches_prepend(graph, u, v, start_v);
                                assert(pre + stack@ =~= (pre + s0).push(u));
                                assert(!(pre + s0).contains(u));
                                lemma_push_contains(pre + s0, u, u);
                                assert forall|i: int, k: int| 0 <= i < k < (pre + stack@).len() implies (pre + stack@)[i] != (pre + stack@)[k] by {
                                    if k == (pre + s0).len() {
                                        assert((pre + s0).contains((pre + s0)[i]));
                                    } else {
                                        assert((pre + stack@)[i] == (pre + s0)[i] && (pre + stack@)[k] == (pre + s0)[k]);
                                    }
                                }
                                assert forall|x: usize| #[trigger] (pre + stack@).contains(x) <==> marked.contains(x) by {
                                    lemma_push_contains(pre + s0, u, x);
                                }
                                assert forall|k: int| 0 <= k < stack@.len() implies reaches(graph, #[trigger] stack@[k], start_v) by {
                                    if k < s0.len() { assert(stack@[k] == s0[k]); }
                                }
                                assert forall|k: int| 0 <= k < m0.len() implies marked[k] == m0[k] by {
                                    assert(marked[k] == mk0[k]);
                                }
                                assert(stack@ =~= stack1 + unlisted(graph.radj(v as int).take(j + 1), bl + p0));
                            }
                        } else {
                            proof {
                                assert(unlisted(graph.radj(v as int).take(j + 1), bl + p0) == pushed);
                            }
                        }
                        j = j + 1;
                    }
                    proof {
                        assert forall|y: usize, x: usize| #![trigger scc@.contains(y), graph.edge(x as int, y as int)]
                            scc@.contains(y) && graph.edge(x as int, y as int) implies marked.contains(x) by {
                            if y == v {
                                assert(graph.adj(x as int).contains((v as int) as usize) <==> graph.radj(v as int).contains((x as int) as usize));
                                let i = choose|i: int| 0 <= i < graph.radj(v as int).len() && graph.radj(v as int)[i] == x;
                                assert(marked.contains(graph.radj(v as int)[i]));
                            }
                        }
                        assert(flat(views(sccs0)) + scc@ + stack@ == pre + stack@);
                        assert forall|k: int| 0 <= k < marked0.len() implies marked[k] == marked0[k] by {
                            assert(m0[k] == marked0[k]);
                        }
                        crate::graph::facts::lemma_distinct_below(marked, n as nat);
                        assert(graph.radj(v as int).take(len as int) =~= graph.radj(v as int));
                        lemma_walk_after_take(graph, bl, start_v, scc0, v, stack0, stack1, stack@, pre);
                    }
                }
                let ghost scc_view = scc@;
                proof {
                    assert(stack@ =~= Seq::<usize>::empty());
                    assert(flat(views(sccs0)) + scc_view + stack@ =~= flat(views(sccs0)) + scc_view);
                    assert forall|cc: int| 0 <= cc < views(sccs0).len() implies is_component(graph, #[trigger] views(sccs0)[cc]) by {
                        assert(views(sccs0)[cc] == sccs0[cc]@);
                    }
                    assert(n <= usize::MAX);
                    lemma_component_done(graph, order@, r as int, views(sccs0), scc_view, marked);
                    lemma_preds_before(graph, views(sccs0), scc_view, marked);
                    assert(views(sccs@) == views(sccs0));
                    lemma_reverse_walks_push(graph, d, order@, r as int, views(sccs0), scc_view);
                }
                sccs.push(scc);
                proof {
                    assert(views(sccs@) =~= views(sccs0).push(scc_view));
                    assert forall|c: int, i: int, x: usize| 0 <= c < sccs@.len() && 0 <= i < sccs@[c]@.len()
                        && #[trigger] graph.edge(x as int, sccs@[c]@[i] as int) implies
                        exists|c2: int| 0 <= c2 <= c && #[trigger] sccs@[c2]@.contains(x) by {
                        if c < sccs0.len() {
                            assert(sccs@[c] == sccs0[c]);
                            let c2 = choose|c2: int| 0 <= c2 <= c && #[trigger] sccs0[c2]@.contains(x);
                            assert(sccs@[c2] == sccs0[c2]);
                        } else {
                            assert(sccs@[c]@ == scc_view);
                            let c2 = choose|c2: int| 0 <= c2 <= views(sccs0).len() && #[trigger] views(sccs0).push(scc_view)[c2].contains(x);
                            assert(views(sccs@)[c2] == sccs@[c2]@);
                        }
                    }
                    assert forall|c: int| 0 <= c < sccs@.len() implies is_component(graph, #[trigger] sccs@[c]@) by {
                        if c < sccs0.len() { assert(sccs@[c] == sccs0[c]); }
                    }
                    assert(sccs@[sccs0.len() as int]@ == scc_view);
                    assert(views(sccs@) =~= views(sccs0).push(scc_view));
                    assert(views(sccs@).drop_last() =~= views(sccs0));
                    assert(flat(views(sccs@)) =~= flat(views(sccs0)) + scc_view);
                    assert(flat(views(sccs0)) + scc_view + stack@ =~= flat(views(sccs@)));
                    assert forall|c: int| 0 <= c < sccs@.len() implies #[trigger] sccs@[c]@.len() > 0 by {
                        if c < sccs0.len() { assert(sccs@[c] == sccs0[c]); }
                    }
                    assert forall|c: int, k: int| 0 <= c < sccs@.len() && 0 <= k < sccs@[c]@.len() implies
                        reaches(graph, #[trigger] sccs@[c]@[k], sccs@[c]@[0]) by {
                        if c < sccs0.len() { assert(sccs@[c] == sccs0[c]); }
                    }
                }
            }
            proof {
                assert(marked_before.len() <= marked.len());
                assert forall|k: int| 0 <= k < marked_before.len() implies marked[k] == marked_before[k] by {}
                assert forall|k: int| r <= k < n implies #[trigger] visited@[order@[k] as int] by {
                    assert(order@[k] < n);
                    if k > r {
                        assert(visited_before[order@[k] as int]);
                        assert(marked_before.contains(order@[k]));
                        let q = choose|q: int| 0 <= q < marked_before.len() && marked_before[q] == order@[k];
                        assert(marked[q] == order@[k]);
                    }
                }
            }
        }
        proof {
            let f = flat(views(sccs@));
            assert forall|v: usize| v < n implies #[trigger] f.contains(v) by {
                crate::graph::facts::lemma_distinct_below(order@, n as nat);
                assert(order@.contains(v));
                let k = choose|k: int| 0 <= k < order@.len() && order@[k] == v;
                assert(visited@[order@[k] as int]);
            }
            assert forall|i: int| 0 <= i < f.len() implies #[trigger] f[i] < n by {
                assert(f.contains(f[i]));
                assert(marked.contains(f[i]));
                let k = choose|k: int| 0 <= k < marked.len() && marked[k] == f[i];
            }
            lemma_covering_len(f, n as nat);
            assert forall|c: int| 0 <= c < views(sccs@).len() implies #[trigger] views(sccs@)[c].len() > 0 by {
                assert(sccs@[c]@.len() > 0);
            }
            assert forall|c: int| 0 <= c < views(sccs@).len() implies is_component(graph, #[trigger] views(sccs@)[c]) by {
                assert(views(sccs@)[c] == sccs@[c]@);
            }
            assert(is_scc_partition(graph, views(sccs@)));
        }
        sccs
    }

    /// The nodes in the order in which a depth-first search over the edges
    /// finishes them.
    fn finish_order(graph: &DirectedGraph) -> (order: Vec<usize>)
        requires
            graph.wf(),
        ensures
            order@.len() == graph.n(),
            distinct_below(order@, graph.n()),
            finish_law(graph, order@),
            exists|d: Seq<usize>| #[trigger] is_discovery_order(graph, d) && nodes_by_finish(graph, d, order@),
    {
        let n = graph.node_count();
        let mut visited: Vec<bool> = Vec::new();
        let mut i: usize = 0;
        while i < n
            invariant
                i <= n,
                visited@.len() == i,
                forall|v: int| 0 <= v < i ==> !#[trigger] visited@[v],
            decreases n - i,
        {
            visited.push(false);
            i = i + 1;
        }
        let mut order: Vec<usize> = Vec::new();
        let ghost mut seen: Seq<usize> = Seq::empty();
        proof { lemma_ko_initial(graph, 0); }
        proof {
            lemma_fo_initial(graph, seen);
            assert(order@ =~= Seq::<usize>::empty());
        }
        let mut start_v: usize = 0;
        while start_v < n
            invariant
                graph.wf(),
                n == graph.n(),
                start_v <= n,
                visited@.len() == n,
                distinct_below(seen, n as int),
                distinct_below(order@, n as int),
                forall|v: usize| v < n ==> (#[trigger] visited@[v as int] <==> seen.contains(v)),
                forall|v: usize| #[trigger] order@.contains(v) <==> seen.contains(v),
                forall|v: usize| v < start_v ==> #[trigger] visited@[v as int],
                fo_core(graph, Seq::empty(), order@, seen),
                ko_inv(graph, start_v, Seq::empty(), order@, seen, -1, 0),
            decreases n - start_v,
        {
            if !visited[start_v] {
                let mut stack: Vec<(usize, bool)> = Vec::new();
                stack.push((start_v, false));
                proof {
                    assert(stack@ =~= seq![(start_v, false)]);
                    lemma_fo_start(graph, order@, seen, start_v);
                    assert forall|z: usize| z < start_v implies #[trigger] seen.contains(z) by {
                        assert(visited@[z as int]);
                    }
                    lemma_ko_start(graph, start_v, order@, seen);
                }
                loop
                    invariant
                        graph.wf(),
                        n == graph.n(),
                        start_v < n,
                        visited@.len() == n,
                        distinct_below(seen, n as int),
                        distinct_below(order@, n as int),
                        forall|v: usize| v < n ==> (#[trigger] visited@[v as int] <==> seen.contains(v)),
                        forall|k: int| 0 <= k < stack@.len() ==> (#[trigger] stack@[k]).0 < n,
                        forall|k: int| 0 <= k < stack@.len() && (#[trigger] stack@[k]).1 ==> visited@[stack@[k].0 as int]
                            && !order@.contains(stack@[k].0),
                        forall|a: int, b: int| 0 <= a < b < stack@.len() && (#[trigger] stack@[a]).1 && (#[trigger] stack@[b]).1
                            ==> stack@[a].0 != stack@[b].0,
                        forall|v: usize| #[trigger] seen.contains(v) ==>
                            (order@.contains(v) || exists|k: int| 0 <= k < stack@.len() && #[trigger] stack@[k] == (v, true)),
                        forall|v: usize| #[trigger] order@.contains(v) ==> seen.contains(v),
                        forall|v: usize| v < start_v ==> #[trigger] visited@[v as int],
                        stack@.len() == 0 ==> visited@[start_v as int],
                        !visited@[start_v as int] ==> stack@ == seq![(start_v, false)],
                        fo_core(graph, stack@, order@, seen),
                        fo_cover_at(graph, stack@, seen, -1, 0),
                        ko_inv(graph, start_v, stack@, order@, seen, -1, 0),
                    ensures
                        stack@.len() == 0,
                        fo_core(graph, stack@, order@, seen),
                        ko_inv(graph, start_v, stack@, order@, seen, -1, 0),
                    decreases n - seen.len(), stack@.len(),
                {
                    proof { lemma_distinct_below(seen, n as nat); }
                    let ghost stack0 = stack@;
                    let top = stack.pop();
                    let (v, processed) = match top {
                        Some(e) => e,
                        None => break,
                    };
                    assert(stack0[stack0.len() - 1] == (v, processed));
                    assert(stack@ =~= stack0.drop_last());
                    assert(!visited@[start_v as int] ==> v == start_v && !processed && stack@.len() == 0);
                    proof {
                        assert forall|k: int| 0 <= k < stack0.len() && (#[trigger] stack0[k]).1 implies
                            seen.contains(stack0[k].0) && !order@.contains(stack0[k].0) by {
                            assert(visited@[stack0[k].0 as int]);
                        }
                        assert(ko_basic(graph, stack0, order@, seen));
                    }
                    if processed {
                        let ghost order0 = order@;
                        order.push(v);
                        proof {
                            assert(stack0.last() == (v, true));
                            lemma_fo_finish(graph, stack0, order0, seen, v);
                            lemma_ko_finish(graph, start_v, stack0, order0, seen);
                            lemma_push_distinct(order0, n as int, v);
                            assert forall|x: usize| #[trigger] seen.contains(x) implies
                                (order@.contains(x) || exists|k: int| 0 <= k < stack@.len() && #[trigger] stack@[k] == (x, true)) by {
                                if !order0.contains(x) && x != v {
                                    let k = choose|k: int| 0 <= k < stack0.len() && #[trigger] stack0[k] == (x, true);
                                    assert(k < stack0.len() - 1);
                                    assert(stack@[k] == (x, true));
                                }
                            }
                            assert forall|k: int| 0 <= k < stack@.len() && (#[trigger] stack@[k]).1 implies
                                visited@[stack@[k].0 as int] && !order@.contains(stack@[k].0) by {
                                assert(stack0[k] == stack@[k]);
                                assert(stack0[k].0 != stack0[stack0.len() - 1].0);
                            }
                        }
                    } else if !visited[v] {
                        let ghost seen0 = seen;
                        visited.set(v, true);
                        proof {
                            assert(stack0.last() == (v, false));
                            lemma_fo_enter(graph, stack0, order@, seen0, v);
                            lemma_ko_enter(graph, start_v, stack0, order@, seen0);
                            lemma_push_distinct(seen0, n as int, v);
                            seen = seen.push(v);
                            assert(!order@.contains(v));
                        }
                        stack.push((v, true));
                        let ghost stack1 = stack@;
                        let ghost t: int = stack1.len() - 1;
                        proof {
                            assert(stack@ == stack0.drop_last().push((v, true)));
                        }
                        let mut j = graph.adjacency[v].len();
                        while j > 0
                            invariant
                                graph.wf(),
                                n == graph.n(),
                                v < n,
                                j <= graph.adj(v as int).len(),
                                visited@.len() == n,
                                forall|x: usize| x < n ==> (#[trigger] visited@[x as int] <==> seen.contains(x)),
                                stack1.len() <= stack@.len(),
                                forall|k: int| 0 <= k < stack1.len() ==> #[trigger] stack@[k] == stack1[k],
                                forall|k: int| stack1.len() <= k < stack@.len() ==> !(#[trigger] stack@[k]).1 && stack@[k].0 < n,
                                stack1.len() >= 1,
                                t == stack1.len() - 1,
                                stack1[t] == (v, true),
                                fo_core(graph, stack@, order@, seen),
                                fo_cover_at(graph, stack@, seen, t, j as int),
                                ko_inv(graph, start_v, stack@, order@, seen, t, j as int),
                                forall|k: int| t < k < stack@.len() ==> !(#[trigger] stack@[k]).1
                                    && graph.adj(v as int).contains(stack@[k].0) && graph.adj(v as int).index_of(stack@[k].0) >= j,
                            decreases j,
                        {
                            j = j - 1;
                            let u = graph.adjacency[v][j];
                            proof {
                                assert(graph.adj(v as int)[j as int] == u);
                                assert(stack@[t] == stack1[t]);
                                assert(graph.adjacency@[v as int].len() == graph.adj(v as int).len());
                            }
                            if !visited[u] {
                                let ghost sb = stack@;
                                proof {
                                    assert forall|k: int| t < k < sb.len() implies !(#[trigger] sb[k]).1 by {}
                                    lemma_fo_push(graph, sb, order@, seen, t, j + 1);
                                    assert(sb[t] == (v, true));
                                    lemma_ko_push(graph, start_v, sb, order@, seen, t, j + 1);
                                }
                                stack.push((u, false));
                                proof {
                                    crate::graph::scc::kosaraju_order::lemma_index_of(graph.adj(v as int), j as int);
                                    assert(graph.adj(v as int).contains(u));
                                    assert forall|k: int| t < k < stack@.len() implies !(#[trigger] stack@[k]).1
                                        && graph.adj(v as int).contains(stack@[k].0) && graph.adj(v as int).index_of(stack@[k].0) >= j by {
                                        if k < sb.len() {
                                            assert(stack@[k] == sb[k]);
                                        }
                                    }
                                }
                            } else {
                                proof {
                                    lemma_fo_pass(graph, stack@, seen, t, j + 1);
                                    assert(stack@[t] == (v, true));
                                    lemma_ko_pass(graph, start_v, stack@, order@, seen, t, j + 1);
                                }
                            }
                        }
                        proof {
                            lemma_fo_cover_done(graph, stack@, seen, t);
                            lemma_ko_cover_done(graph, start_v, stack@, order@, seen, t);
                            assert forall|k: int| 0 <= k < stack@.len() implies (#[trigger] stack@[k]).0 < n by {
                                if k < stack1.len() { assert(stack@[k] == stack1[k]); }
                            }
                            assert forall|k: int| 0 <= k < stack@.len() && (#[trigger] stack@[k]).1 implies
                                visited@[stack@[k].0 as int] && !order@.contains(stack@[k].0) by {
                                assert(stack@[k] == stack1[k]);
                                if k < stack0.len() - 1 {
                                    assert(stack1[k] == stack0[k]);
                                }
                            }
                            assert forall|a: int, b: int| 0 <= a < b < stack@.len() && (#[trigger] stack@[a]).1 && (#[trigger] stack@[b]).1
                                implies stack@[a].0 != stack@[b].0 by {
                                assert(stack@[a] == stack1[a] && stack@[b] == stack1[b]);
                                if b < stack0.len() - 1 {
                                    assert(stack1[a] == stack0[a] && stack1[b] == stack0[b]);
                                } else {
                                    assert(stack1[a] == stack0[a]);
                                    assert(visited@[stack0[a].0 as int]);
                                }
                            }
                            assert forall|x: usize| #[trigger] seen.contains(x) implies
                                (order@.contains(x) || exists|k: int| 0 <= k < stack@.len() && #[trigger] stack@[k] == (x, true)) by {
                                if x == v {
                                    assert(stack@[stack0.len() - 1] == (v, true));
                                } else if !order@.contains(x) {
                                    assert(seen0.contains(x));
                                    let k = choose|k: int| 0 <= k < stack0.len() && #[trigger] stack0[k] == (x, true);
                                    assert(k < stack0.len() - 1);
                                    assert(stack@[k] == (x, true));
                                }
                            }
                            assert forall|x: usize| #[trigger] order@.contains(x) implies seen.contains(x) by {
                                assert(seen0.contains(x));
                            }
                        }
                    } else {
                        proof {
                            assert(stack0.last() == (v, false));
                            lemma_fo_skip(graph, stack0, order@, seen);
                            assert(seen.contains(v)) by { assert(visited@[v as int]); }
                            lemma_ko_skip(graph, start_v, stack0, order@, seen);
                            assert forall|x: usize| #[trigger] seen.contains(x) implies
                                (order@.contains(x) || exists|k: int| 0 <= k < stack@.len() && #[trigger] stack@[k] == (x, true)) by {
                                if !order@.contains(x) {
                                    let k = choose|k: int| 0 <= k < stack0.len() && #[trigger] stack0[k] == (x, true);
                                    assert(k < stack0.len() - 1);
                                    assert(stack@[k] == (x, true));
                                }
                            }
                        }
                    }
                    proof { lemma_distinct_below(seen, n as nat); }
                }
                proof {
                    assert(stack@ =~= Seq::<(usize, bool)>::empty());
                    assert forall|x: usize| #[trigger] order@.contains(x) <==> seen.contains(x) by {
                        if seen.contains(x) {
                            if !order@.contains(x) {
                                let k = choose|k: int| 0 <= k < stack@.len() && #[trigger] stack@[k] == (x, true);
                            }
                        }
                    }
                }
            }
            proof {
                if !visited@[start_v as int] {
                    assert(false);
                }
                lemma_ko_restart(graph, start_v, (start_v + 1) as usize, order@, seen);
            }
            start_v = start_v + 1;
        }
        proof {
            assert forall|v: usize| v < n implies #[trigger] order@.contains(v) by {
                assert(visited@[v as int]);
            }
            lemma_covering_len(order@, n as nat);
            lemma_fo_end(graph, order@, seen);
            assert forall|v: usize| v < n implies #[trigger] seen.contains(v) by {
                assert(order@.contains(v));
            }
            lemma_covering_len(seen, n as nat);
            lemma_ko_end(graph, start_v, order@, seen);
            assert(nodes_by_finish(graph, seen, order@));
        }
        order
    }
}

impl Default for KosarajuSCC {
    /// The same as `new`.
    fn default() -> (r: Self)
        ensures
            r == KosarajuSCC,
    {
        KosarajuSCC::new()
    }
}

/// What has to hold after the top `stack0.len() - pos` entries of the stack
/// have been moved, last first, into a new component.
proof fn lemma_pop_component(sccs0: Seq<Vec<usize>>, stack0: Seq<usize>, pos: int, scc: Seq<usize>)
    requires
        0 <= pos < stack0.len(),
        (flat(views(sccs0)) + stack0).no_duplicates(),
        scc.len() == stack0.len() - pos,
        forall|k: int| 0 <= k < scc.len() ==> #[trigger] scc[k] == stack0[stack0.len() - 1 - k],
    ensures
        (flat(views(sccs0)) + scc + stack0.subrange(0, pos)).no_duplicates(),
        forall|x: usize| (flat(views(sccs0)) + scc + stack0.subrange(0, pos)).contains(x)
            <==> (flat(views(sccs0)) + stack0).contains(x),
        scc.len() > 0,
{
    let f = flat(views(sccs0));
    let low = stack0.subrange(0, pos);
    let high = stack0.subrange(pos, stack0.len() as int);
    assert(f + stack0 =~= f + low + high);
    assert forall|x: usize| scc.contains(x) <==> high.contains(x) by {
        if scc.contains(x) {
            let k = choose|k: int| 0 <= k < scc.len() && scc[k] == x;
            assert(high[stack0.len() - 1 - k - pos] == x);
        }
        if high.contains(x) {
            let k = choose|k: int| 0 <= k < high.len() && high[k] == x;
            assert(scc[stack0.len() - 1 - (k + pos)] == x);
        }
    }
    assert forall|i: int, j: int| 0 <= i < j < high.len() implies high[i] != high[j] by {
        assert((f + stack0)[f.len() + pos + i] == high[i]);
        assert((f + stack0)[f.len() + pos + j] == high[j]);
    }
    assert forall|i: int, j: int| 0 <= i < j < scc.len() implies scc[i] != scc[j] by {
        assert(high[stack0.len() - 1 - i - pos] == scc[i]);
        assert(high[stack0.len() - 1 - j - pos] == scc[j]);
    }
    assert forall|i: int, j: int| 0 <= i < j < low.len() implies low[i] != low[j] by {
        assert((f + stack0)[f.len() + i] == low[i]);
        assert((f + stack0)[f.len() + j] == low[j]);
    }
    assert forall|i: int, j: int| 0 <= i < j < f.len() implies f[i] != f[j] by {
        assert((f + stack0)[i] == f[i]);
        assert((f + stack0)[j] == f[j]);
    }
    assert forall|x: usize| f.contains(x) implies !scc.contains(x) by {
        let i = choose|i: int| 0 <= i < f.len() && f[i] == x;
        if high.contains(x) {
            let j = choose|j: int| 0 <= j < high.len() && high[j] == x;
            assert((f + stack0)[i] == x);
            assert((f + stack0)[f.len() + pos + j] == x);
        }
    }
    lemma_concat_no_dup(f, scc);
    assert forall|x: usize| (f + scc).contains(x) implies !low.contains(x) by {
        lemma_concat_contains(f, scc, x);
        if low.contains(x) {
            let j = choose|j: int| 0 <= j < low.len() && low[j] == x;
            if f.contains(x) {
                let i = choose|i: int| 0 <= i < f.len() && f[i] == x;
                assert((f + stack0)[i] == x);
                assert((f + stack0)[f.len() + j] == x);
            } else {
                let i = choose|i: int| 0 <= i < high.len() && high[i] == x;
                assert((f + stack0)[f.len() + pos + i] == x);
                assert((f + stack0)[f.len() + j] == x);
            }
        }
    }
    lemma_concat_no_dup(f + scc, low);
    assert forall|x: usize| (f + scc + low).contains(x) <==> (f + stack0).contains(x) by {
        lemma_concat_contains(f + scc, low, x);
        lemma_concat_contains(f, scc, x);
        lemma_concat_contains(f + low, high, x);
        lemma_concat_contains(f, low, x);
    }
}

/// Each part lists the nodes in the order in which a walk from its first node
/// along reversed edges takes them, the nodes of the earlier parts blocked;
/// and its first node is, of the nodes in no earlier part, the one that the
/// depth-first search entering the nodes in the order `d` finishes last.
pub open spec fn parts_by_reverse_walks(g: &DirectedGraph, d: Seq<usize>, parts: Seq<Seq<usize>>) -> bool {
    &&& forall|c: int| 0 <= c < parts.len() ==> rev_walk(g, flat(parts.take(c)), parts[c][0], #[trigger] parts[c])
    &&& forall|c: int, i1: int, i2: int| #![trigger parts[c], d[i1], d[i2]]
        0 <= c < parts.len() && 0 <= i1 < d.len() && 0 <= i2 < d.len() && d[i1] == parts[c][0]
        && d[i2] != parts[c][0] && !flat(parts.take(c)).contains(d[i2]) ==> finishes_before(g, d, i2, i1)
}

/// `parts` lists the strongly connected components as a depth-first search
/// that starts from the nodes in increasing order and tries out-neighbours
/// from the first to the last, followed by walks along reversed edges from
/// the latest finished node left, lists them.
pub open spec fn is_kosaraju_listing(g: &DirectedGraph, parts: Seq<Seq<usize>>) -> bool {
    &&& is_scc_partition(g, parts)
    &&& exists|d: Seq<usize>| #[trigger] is_discovery_order(g, d) && parts_by_reverse_walks(g, d, parts)
}

/// A new part started at the latest finished node left, and walked from it,
/// keeps the listing as Kosaraju's second pass makes it.
proof fn lemma_reverse_walks_push(
    g: &DirectedGraph,
    d: Seq<usize>,
    order: Seq<usize>,
    r: int,
    parts: Seq<Seq<usize>>,
    scc: Seq<usize>,
)
    requires
        g.wf(),
        is_discovery_order(g, d),
        parts_by_reverse_walks(g, d, parts),
        nodes_by_finish(g, d, order),
        g.n() <= usize::MAX,
        order.len() == g.n(),
        distinct_below(order, g.n() as int),
        0 <= r < order.len(),
        forall|k: int| r < k < order.len() ==> flat(parts).contains(#[trigger] order[k]),
        scc.len() > 0,
        scc[0] == order[r],
        rev_walk(g, flat(parts), scc[0], scc),
    ensures
        parts_by_reverse_walks(g, d, parts.push(scc)),
{
    let q = parts.push(scc);
    let m = parts.len() as int;
    assert(q.take(m) =~= parts);
    assert(q[m] == scc);
    assert forall|c: int| 0 <= c < q.len() implies rev_walk(g, flat(q.take(c)), q[c][0], #[trigger] q[c]) by {
        if c < m {
            assert(q.take(c) =~= parts.take(c));
            assert(q[c] == parts[c]);
        }
    }
    assert forall|c: int, i1: int, i2: int| #![trigger q[c], d[i1], d[i2]]
        0 <= c < q.len() && 0 <= i1 < d.len() && 0 <= i2 < d.len() && d[i1] == q[c][0]
        && d[i2] != q[c][0] && !flat(q.take(c)).contains(d[i2]) implies finishes_before(g, d, i2, i1) by {
        if c < m {
            assert(q.take(c) =~= parts.take(c));
            assert(q[c] == parts[c]);
            assert(parts[c] == q[c]);
        } else {
            let x = d[i2];
            lemma_discovery_below(g, d, i2);
            lemma_distinct_below(order, g.n() as nat);
            assert(order.contains(x));
            let k = choose|k: int| 0 <= k < order.len() && order[k] == x;
            assert(k != r);
            if k > r {
                assert(flat(parts).contains(order[k]));
            }
            assert(k < r);
            assert(order[k] == d[i2] && order[r] == d[i1]);
        }
    }
}

/// A part's first node lies in no earlier part.
proof fn lemma_first_not_before(g: &DirectedGraph, p: Seq<Seq<usize>>, c: int)
    requires
        is_scc_partition(g, p),
        0 <= c < p.len(),
    ensures
        !flat(p.take(c)).contains(p[c][0]),
{
    assert(p[c].len() > 0);
    assert(p[c].contains(p[c][0]));
    if flat(p.take(c)).contains(p[c][0]) {
        let c2 = crate::graph::facts::lemma_flat_member(p.take(c), p[c][0]);
        assert(p.take(c)[c2] == p[c2]);
        lemma_parts_meet(g, p, c, c2, p[c][0]);
    }
}

/// Two such lists that agree on their first `i` parts start their next
/// part at the same node.
proof fn lemma_kosaraju_same_first(g: &DirectedGraph, d: Seq<usize>, p1: Seq<Seq<usize>>, p2: Seq<Seq<usize>>, i: int)
    requires
        is_scc_partition(g, p1),
        is_scc_partition(g, p2),
        forall|x: usize| x < g.n() ==> #[trigger] d.contains(x),
        parts_by_reverse_walks(g, d, p1),
        parts_by_reverse_walks(g, d, p2),
        0 <= i < p1.len(),
        i < p2.len(),
        p1.take(i) == p2.take(i),
    ensures
        p1[i][0] == p2[i][0],
{
    let a = p1[i][0];
    let b = p2[i][0];
    lemma_first_not_before(g, p1, i);
    lemma_first_not_before(g, p2, i);
    if a != b {
        crate::graph::facts::lemma_part_member_below(g.n(), p1, i, 0);
        crate::graph::facts::lemma_part_member_below(g.n(), p2, i, 0);
        assert(d.contains(a) && d.contains(b));
        let ia = choose|k: int| 0 <= k < d.len() && d[k] == a;
        let ib = choose|k: int| 0 <= k < d.len() && d[k] == b;
        assert(!flat(p1.take(i)).contains(d[ib]));
        assert(!flat(p2.take(i)).contains(d[ia]));
        assert(finishes_before(g, d, ib, ia));
        assert(finishes_before(g, d, ia, ib));
    }
}

/// Two lists that are both what Kosaraju's passes give agree on their first
/// `c` parts.
proof fn lemma_kosaraju_prefix(g: &DirectedGraph, d: Seq<usize>, p1: Seq<Seq<usize>>, p2: Seq<Seq<usize>>, c: int)
    requires
        is_scc_partition(g, p1),
        is_scc_partition(g, p2),
        forall|x: usize| x < g.n() ==> #[trigger] d.contains(x),
        parts_by_reverse_walks(g, d, p1),
        parts_by_reverse_walks(g, d, p2),
        p1.len() == p2.len(),
        0 <= c <= p1.len(),
    ensures
        p1.take(c) == p2.take(c),
    decreases c,
{
    if c > 0 {
        let i = c - 1;
        lemma_kosaraju_prefix(g, d, p1, p2, i);
        lemma_kosaraju_same_first(g, d, p1, p2, i);
        assert(rev_walk(g, flat(p1.take(i)), p1[i][0], p1[i]));
        assert(rev_walk(g, flat(p2.take(i)), p2[i][0], p2[i]));
        crate::graph::depth_first::lemma_rev_walk_unique(g, flat(p1.take(i)), p1[i][0], p1[i], p2[i]);
        assert(p1.take(c) =~= p1.take(i).push(p1[i]));
        assert(p2.take(c) =~= p2.take(i).push(p2[i]));
    } else {
        assert(p1.take(0) =~= p2.take(0));
    }
}

/// Kosaraju's listing is determined by the graph: two lists of parts that
/// are both what Kosaraju's passes give are the same.
pub proof fn lemma_kosaraju_listing_unique(g: &DirectedGraph, p1: Seq<Seq<usize>>, p2: Seq<Seq<usize>>)
    requires
        g.wf(),
        g.n() <= usize::MAX,
        is_kosaraju_listing(g, p1),
        is_kosaraju_listing(g, p2),
    ensures
        p1 == p2,
{
    let d1 = choose|d: Seq<usize>| #[trigger] is_discovery_order(g, d) && parts_by_reverse_walks(g, d, p1);
    let d2 = choose|d: Seq<usize>| #[trigger] is_discovery_order(g, d) && parts_by_reverse_walks(g, d, p2);
    lemma_discovery_order_unique(g, d1, d2);
    lemma_discovery_perm(g, d1);
    lemma_scc_partitions_agree(g, p1, p2);
    lemma_kosaraju_prefix(g, d1, p1, p2, p1.len() as int);
    assert(p1 =~= p1.take(p1.len() as int));
    assert(p2 =~= p2.take(p2.len() as int));
}

} // verus!
