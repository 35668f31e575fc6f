//! General facts about sequences of node indices.

use vstd::prelude::*;

use crate::model::DirectedGraph;

verus! {

/// The node indices below `n`.
pub open spec fn below(n: int) -> Set<usize> {
    Set::new(|v: usize| v < n)
}

/// The indices below `n` form a finite set of `n` elements.
pub proof fn lemma_below(n: nat)
    requires
        n <= usize::MAX + 1,
    ensures
        below(n as int).finite(),
        below(n as int).len() == n,
    decreases n,
{
    if n == 0 {
        assert(below(0) =~= Set::<usize>::empty());
    } else {
        lemma_below((n - 1) as nat);
        assert(below(n as int) =~= below(n - 1).insert((n - 1) as usize));
    }
}

/// A sequence of distinct indices below `n` has at most `n` elements, and
/// when it has exactly `n` it holds every index below `n`.
pub proof fn lemma_distinct_below(s: Seq<usize>, n: nat)
    requires
        n <= usize::MAX + 1,
        s.no_duplicates(),
        forall|i: int| 0 <= i < s.len() ==> #[trigger] s[i] < n,
    ensures
        s.len() <= n,
        s.len() == n ==> forall|v: usize| v < n ==> #[trigger] s.contains(v),
        s.len() < n ==> exists|v: usize| v < n && !#[trigger] s.contains(v),
{
    lemma_below(n);
    s.unique_seq_to_set();
    assert(s.to_set().subset_of(below(n as int))) by {
        assert forall|v: usize| s.to_set().contains(v) implies below(n as int).contains(v) by {
            let i = choose|i: int| 0 <= i < s.len() && s[i] == v;
        }
    }
    vstd::set_lib::lemma_len_subset(s.to_set(), below(n as int));
    if s.len() < n {
        if forall|v: usize| v < n ==> #[trigger] s.contains(v) {
            assert(below(n as int).subset_of(s.to_set())) by {
                assert forall|v: usize| below(n as int).contains(v) implies s.to_set().contains(v) by {
                    assert(s.contains(v));
                }
            }
            vstd::set_lib::lemma_len_subset(below(n as int), s.to_set());
        }
    }
    if s.len() == n {
        vstd::set_lib::lemma_subset_equality(s.to_set(), below(n as int));
        assert forall|v: usize| v < n implies #[trigger] s.contains(v) by {
            assert(below(n as int).contains(v));
            assert(s.to_set().contains(v));
        }
    }
}

/// `p` is a nonempty walk of `g`: its entries are nodes and each leads to
/// the next by an edge.
pub open spec fn is_walk(g: &DirectedGraph, p: Seq<usize>) -> bool {
    &&& p.len() > 0
    &&& forall|i: int| 0 <= i < p.len() ==> #[trigger] p[i] < g.n()
    &&& forall|i: int| 0 <= i < p.len() - 1 ==> #[trigger] g.edge(p[i] as int, p[i + 1] as int)
}

/// `b` can be reached from `a` by following edges (in zero or more steps).
pub open spec fn reaches(g: &DirectedGraph, a: usize, b: usize) -> bool {
    exists|p: Seq<usize>| #[trigger] is_walk(g, p) && p[0] == a && p.last() == b
}

/// Every node reaches itself.
pub proof fn lemma_reaches_self(g: &DirectedGraph, a: usize)
    requires
        a < g.n(),
    ensures
        reaches(g, a, a),
{
    let p = seq![a];
    assert(is_walk(g, p));
}

/// An edge in front of a walk gives a walk.
pub proof fn lemma_reaches_prepend(g: &DirectedGraph, u: usize, v: usize, b: usize)
    requires
        g.edge(u as int, v as int),
        reaches(g, v, b),
    ensures
        reaches(g, u, b),
{
    let p = choose|p: Seq<usize>| #[trigger] is_walk(g, p) && p[0] == v && p.last() == b;
    let q = seq![u] + p;
    assert(q[0] == u);
    assert(q.last() == b);
    assert forall|i: int| 0 <= i < q.len() implies #[trigger] q[i] < g.n() by {
        if i > 0 { assert(q[i] == p[i - 1]); }
    }
    assert forall|i: int| 0 <= i < q.len() - 1 implies #[trigger] g.edge(q[i] as int, q[i + 1] as int) by {
        if i > 0 {
            let j = i - 1;
            assert(q[i] == p[j] && q[i + 1] == p[j + 1]);
            assert(g.edge(p[j] as int, p[j + 1] as int));
        } else {
            assert(q[1] == p[0]);
        }
    }
    assert(is_walk(g, q));
}

/// The contents of a list of components, each taken by its view.
pub open spec fn views(comps: Seq<Vec<usize>>) -> Seq<Seq<usize>> {
    comps.map_values(|c: Vec<usize>| c@)
}

/// The components one after another.
pub open spec fn flat(comps: Seq<Seq<usize>>) -> Seq<usize>
    decreases comps.len(),
{
    if comps.len() == 0 {
        Seq::empty()
    } else {
        flat(comps.drop_last()) + comps.last()
    }
}

/// `comps` splits the nodes `0..n`: every component is nonempty and every
/// node lies in exactly one component.
pub open spec fn is_partition_of_nodes(n: int, comps: Seq<Seq<usize>>) -> bool {
    &&& forall|c: int| 0 <= c < comps.len() ==> #[trigger] comps[c].len() > 0
    &&& flat(comps).len() == n
    &&& flat(comps).no_duplicates()
    &&& forall|i: int| 0 <= i < flat(comps).len() ==> #[trigger] flat(comps)[i] < n
}

/// Membership in a concatenation.
pub proof fn lemma_concat_contains<A>(a: Seq<A>, b: Seq<A>, x: A)
    ensures
        (a + b).contains(x) <==> (a.contains(x) || b.contains(x)),
{
    if (a + b).contains(x) {
        let k = choose|k: int| 0 <= k < (a + b).len() && (a + b)[k] == x;
        if k < a.len() { assert(a[k] == x); } else { assert(b[k - a.len()] == x); }
    }
    if a.contains(x) {
        let k = choose|k: int| 0 <= k < a.len() && a[k] == x;
        assert((a + b)[k] == x);
    }
    if b.contains(x) {
        let k = choose|k: int| 0 <= k < b.len() && b[k] == x;
        assert((a + b)[k + a.len()] == x);
    }
}

/// Concatenating two sequences without repeats and without a common element
/// gives a sequence without repeats.
pub proof fn lemma_concat_no_dup<A>(a: Seq<A>, b: Seq<A>)
    requires
        a.no_duplicates(),
        b.no_duplicates(),
        forall|x: A| a.contains(x) ==> !b.contains(x),
    ensures
        (a + b).no_duplicates(),
{
    assert forall|i: int, j: int| 0 <= i < j < (a + b).len() implies (a + b)[i] != (a + b)[j] by {
        if i < a.len() && j >= a.len() {
            assert(a.contains((a + b)[i]));
            assert(b[j - a.len()] == (a + b)[j]);
            assert(b.contains((a + b)[j]));
        }
        if i >= a.len() {
            assert(b[i - a.len()] == (a + b)[i] && b[j - a.len()] == (a + b)[j]);
        }
    }
}

/// A sequence of distinct nodes below `n` that holds every node below `n`
/// has exactly `n` elements.
pub proof fn lemma_covering_len(s: Seq<usize>, n: nat)
    requires
        n <= usize::MAX + 1,
        s.no_duplicates(),
        forall|i: int| 0 <= i < s.len() ==> #[trigger] s[i] < n,
        forall|v: usize| v < n ==> #[trigger] s.contains(v),
    ensures
        s.len() == n,
{
    lemma_distinct_below(s, n);
}

/// Every member of every part occurs in the parts laid end to end.
pub proof fn lemma_flat_contains(parts: Seq<Seq<usize>>, c: int, i: int)
    requires
        0 <= c < parts.len(),
        0 <= i < parts[c].len(),
    ensures
        flat(parts).contains(parts[c][i]),
    decreases parts.len(),
{
    let a = flat(parts.drop_last());
    let b = parts.last();
    if c == parts.len() - 1 {
        assert((a + b)[a.len() + i] == b[i]);
    } else {
        assert(parts.drop_last()[c] == parts[c]);
        lemma_flat_contains(parts.drop_last(), c, i);
        let k = choose|k: int| 0 <= k < a.len() && a[k] == parts[c][i];
        assert((a + b)[k] == a[k]);
    }
}

/// The members of a partition of the nodes are nodes.
pub proof fn lemma_part_member_below(n: int, parts: Seq<Seq<usize>>, c: int, i: int)
    requires
        is_partition_of_nodes(n, parts),
        0 <= c < parts.len(),
        0 <= i < parts[c].len(),
    ensures
        parts[c][i] < n,
{
    lemma_flat_contains(parts, c, i);
    let k = choose|k: int| 0 <= k < flat(parts).len() && flat(parts)[k] == parts[c][i];
}

/// An edge is a walk of one step.
pub proof fn lemma_edge_reaches(g: &DirectedGraph, u: usize, v: usize)
    requires
        g.edge(u as int, v as int),
    ensures
        reaches(g, u, v),
{
    let p = seq![u, v];
    assert(is_walk(g, p));
}

/// Reaching is transitive.
pub proof fn lemma_reaches_trans(g: &DirectedGraph, a: usize, b: usize, c: usize)
    requires
        reaches(g, a, b),
        reaches(g, b, c),
    ensures
        reaches(g, a, c),
{
    let p = choose|p: Seq<usize>| #[trigger] is_walk(g, p) && p[0] == a && p.last() == b;
    let q = choose|q: Seq<usize>| #[trigger] is_walk(g, q) && q[0] == b && q.last() == c;
    let r = p + q.skip(1);
    assert forall|i: int| 0 <= i < r.len() implies #[trigger] r[i] < g.n() by {
        if i >= p.len() { assert(r[i] == q[i - p.len() + 1]); }
    }
    assert forall|i: int| 0 <= i < r.len() - 1 implies #[trigger] g.edge(r[i] as int, r[i + 1] as int) by {
        if i < p.len() - 1 {
            assert(r[i] == p[i] && r[i + 1] == p[i + 1]);
        } else if i == p.len() - 1 {
            assert(r[i] == q[0] && r[i + 1] == q[1]);
        } else {
            let j = i - p.len() + 1;
            assert(r[i] == q[j] && r[i + 1] == q[j + 1]);
        }
    }
    assert(r[0] == a);
    if q.len() == 1 {
        assert(r =~= p);
    } else {
        assert(r.last() == q.last());
    }
    assert(is_walk(g, r));
}

/// Every entry of a walk that starts in a set closed under edges lies in it.
proof fn lemma_walk_closed(g: &DirectedGraph, inside: spec_fn(usize) -> bool, w: Seq<usize>, i: int)
    requires
        forall|a: usize, b: usize| inside(a) && #[trigger] g.edge(a as int, b as int) ==> inside(b),
        is_walk(g, w),
        inside(w[0]),
        0 <= i < w.len(),
    ensures
        inside(w[i]),
    decreases i,
{
    if i > 0 {
        lemma_walk_closed(g, inside, w, i - 1);
        let j = i - 1;
        assert(g.edge(w[j] as int, w[j + 1] as int));
    }
}

/// A set closed under edges holds everything reachable from its members.
pub proof fn lemma_closed_reach(g: &DirectedGraph, inside: spec_fn(usize) -> bool, x: usize, z: usize)
    requires
        forall|a: usize, b: usize| inside(a) && #[trigger] g.edge(a as int, b as int) ==> inside(b),
        inside(x),
        reaches(g, x, z),
    ensures
        inside(z),
{
    let w = choose|w: Seq<usize>| #[trigger] is_walk(g, w) && w[0] == x && w.last() == z;
    lemma_walk_closed(g, inside, w, w.len() - 1);
}

/// `part` is a strongly connected component of `g`: its members reach one
/// another, and every node that reaches a member and is reached from it is a
/// member.
pub open spec fn is_component(g: &DirectedGraph, part: Seq<usize>) -> bool {
    &&& forall|i: int, j: int| 0 <= i < part.len() && 0 <= j < part.len() ==>
        reaches(g, #[trigger] part[i], #[trigger] part[j])
    &&& forall|i: int, z: usize| 0 <= i < part.len() && #[trigger] reaches(g, part[i], z) && reaches(g, z, part[i])
        ==> part.contains(z)
}

/// `parts` lists the strongly connected components of `g`, each once, and
/// every node lies in exactly one of them.
pub open spec fn is_scc_partition(g: &DirectedGraph, parts: Seq<Seq<usize>>) -> bool {
    &&& is_partition_of_nodes(g.n(), parts)
    &&& forall|c: int| 0 <= c < parts.len() ==> is_component(g, #[trigger] parts[c])
}

/// Each part of a list of parts without repeats has no repeats.
pub proof fn lemma_flat_part_no_dup(parts: Seq<Seq<usize>>, c: int)
    requires
        flat(parts).no_duplicates(),
        0 <= c < parts.len(),
    ensures
        parts[c].no_duplicates(),
    decreases parts.len(),
{
    let a = flat(parts.drop_last());
    let b = parts.last();
    assert(flat(parts) == a + b);
    if c == parts.len() - 1 {
        assert forall|i: int, j: int| 0 <= i < j < b.len() implies b[i] != b[j] by {
            assert((a + b)[a.len() + i] == b[i]);
            assert((a + b)[a.len() + j] == b[j]);
        }
    } else {
        assert forall|i: int, j: int| 0 <= i < j < a.len() implies a[i] != a[j] by {
            assert((a + b)[i] == a[i]);
            assert((a + b)[j] == a[j]);
        }
        assert(parts.drop_last()[c] == parts[c]);
        lemma_flat_part_no_dup(parts.drop_last(), c);
    }
}

/// Whatever occurs in the parts laid end to end occurs in one of the parts.
pub proof fn lemma_flat_member(parts: Seq<Seq<usize>>, x: usize) -> (c: int)
    requires
        flat(parts).contains(x),
    ensures
        0 <= c < parts.len(),
        parts[c].contains(x),
    decreases parts.len(),
{
    let a = flat(parts.drop_last());
    let b = parts.last();
    assert(flat(parts) == a + b);
    lemma_concat_contains(a, b, x);
    if b.contains(x) {
        parts.len() - 1
    } else {
        let c = lemma_flat_member(parts.drop_last(), x);
        assert(parts.drop_last()[c] == parts[c]);
        c
    }
}

/// In the strongly connected components of a graph, some component has more
/// than one node exactly when two distinct nodes reach each other.
pub proof fn lemma_multi_part_iff_cycle(g: &DirectedGraph, parts: Seq<Seq<usize>>)
    requires
        is_scc_partition(g, parts),
        g.n() <= usize::MAX + 1,
    ensures
        (exists|c: int| 0 <= c < parts.len() && #[trigger] parts[c].len() > 1) <==> (exists|x: usize, y: usize|
            x < g.n() && y < g.n() && x != y && #[trigger] reaches(g, x, y) && #[trigger] reaches(g, y, x)),
{
    if exists|c: int| 0 <= c < parts.len() && #[trigger] parts[c].len() > 1 {
        let c = choose|c: int| 0 <= c < parts.len() && #[trigger] parts[c].len() > 1;
        lemma_flat_part_no_dup(parts, c);
        let x = parts[c][0];
        let y = parts[c][1];
        lemma_part_member_below(g.n(), parts, c, 0);
        lemma_part_member_below(g.n(), parts, c, 1);
        assert(is_component(g, parts[c]));
        assert(reaches(g, parts[c][0], parts[c][1]));
        assert(reaches(g, parts[c][1], parts[c][0]));
    }
    if exists|x: usize, y: usize| x < g.n() && y < g.n() && x != y && #[trigger] reaches(g, x, y) && #[trigger] reaches(g, y, x) {
        let (x, y) = choose|x: usize, y: usize| x < g.n() && y < g.n() && x != y && #[trigger] reaches(g, x, y)
            && #[trigger] reaches(g, y, x);
        lemma_distinct_below(flat(parts), g.n() as nat);
        assert(flat(parts).contains(x));
        let c = lemma_flat_member(parts, x);
        let i = choose|i: int| 0 <= i < parts[c].len() && parts[c][i] == x;
        assert(is_component(g, parts[c]));
        assert(reaches(g, parts[c][i], y));
        assert(parts[c].contains(y));
        if parts[c].len() <= 1 {
            let j = choose|j: int| 0 <= j < parts[c].len() && parts[c][j] == y;
            assert(i == 0 && j == 0);
            assert(false);
        }
    }
}

/// Membership after a push.
pub proof fn lemma_push_contains(s: Seq<usize>, x: usize, y: usize)
    ensures
        s.push(x).contains(y) <==> (s.contains(y) || y == x),
{
    if s.push(x).contains(y) {
        let k = choose|k: int| 0 <= k < s.push(x).len() && s.push(x)[k] == y;
        if k < s.len() { assert(s[k] == y); }
    }
    if s.contains(y) {
        let k = choose|k: int| 0 <= k < s.len() && s[k] == y;
        assert(s.push(x)[k] == y);
    }
    if y == x { assert(s.push(x)[s.len() as int] == y); }
}


/// The index of a part that holds `x`.
pub open spec fn part_of(parts: Seq<Seq<usize>>, x: usize) -> int {
    choose|c: int| 0 <= c < parts.len() && parts[c].contains(x)
}

/// Two parts of a list of parts without repeats that share a member are the
/// same part.
pub proof fn lemma_flat_disjoint(parts: Seq<Seq<usize>>, c1: int, c2: int, y: usize)
    requires
        flat(parts).no_duplicates(),
        0 <= c1 < parts.len(),
        0 <= c2 < parts.len(),
        parts[c1].contains(y),
        parts[c2].contains(y),
    ensures
        c1 == c2,
    decreases parts.len(),
{
    let a = flat(parts.drop_last());
    let b = parts.last();
    let last = parts.len() - 1;
    assert(flat(parts) == a + b);
    assert forall|i: int, j: int| 0 <= i < j < a.len() implies a[i] != a[j] by {
        assert((a + b)[i] == a[i]);
        assert((a + b)[j] == a[j]);
    }
    if c1 != c2 {
        if c1 < last && c2 < last {
            assert(parts.drop_last()[c1] == parts[c1]);
            assert(parts.drop_last()[c2] == parts[c2]);
            lemma_flat_disjoint(parts.drop_last(), c1, c2, y);
        } else {
            let other = if c1 == last { c2 } else { c1 };
            assert(parts.drop_last()[other] == parts[other]);
            let k = choose|k: int| 0 <= k < parts[other].len() && parts[other][k] == y;
            lemma_flat_contains(parts.drop_last(), other, k);
            let i = choose|i: int| 0 <= i < a.len() && a[i] == y;
            let j = choose|j: int| 0 <= j < b.len() && b[j] == y;
            assert((a + b)[i] == y);
            assert((a + b)[a.len() + j] == y);
        }
    }
}

/// The part of one list of strongly connected components that holds the
/// first member of a part of another holds exactly the same members.
proof fn lemma_part_match(g: &DirectedGraph, p1: Seq<Seq<usize>>, p2: Seq<Seq<usize>>, c1: int)
    requires
        is_scc_partition(g, p1),
        is_scc_partition(g, p2),
        g.n() <= usize::MAX + 1,
        0 <= c1 < p1.len(),
    ensures
        0 <= part_of(p2, p1[c1][0]) < p2.len(),
        forall|y: usize| p1[c1].contains(y) <==> #[trigger] p2[part_of(p2, p1[c1][0])].contains(y),
{
    let x = p1[c1][0];
    lemma_part_member_below(g.n(), p1, c1, 0);
    lemma_distinct_below(flat(p2), g.n() as nat);
    assert(flat(p2).contains(x));
    let c = lemma_flat_member(p2, x);
    let c2 = part_of(p2, x);
    assert(0 <= c2 < p2.len() && p2[c2].contains(x));
    let j = choose|j: int| 0 <= j < p2[c2].len() && p2[c2][j] == x;
    assert(is_component(g, p1[c1]));
    assert(is_component(g, p2[c2]));
    assert forall|y: usize| p1[c1].contains(y) <==> #[trigger] p2[c2].contains(y) by {
        if p1[c1].contains(y) {
            let i = choose|i: int| 0 <= i < p1[c1].len() && p1[c1][i] == y;
            assert(reaches(g, p1[c1][0], p1[c1][i]));
            assert(reaches(g, p1[c1][i], p1[c1][0]));
            assert(reaches(g, p2[c2][j], y));
        }
        if p2[c2].contains(y) {
            let i = choose|i: int| 0 <= i < p2[c2].len() && p2[c2][i] == y;
            assert(reaches(g, p2[c2][j], p2[c2][i]));
            assert(reaches(g, p2[c2][i], p2[c2][j]));
            assert(reaches(g, p1[c1][0], y));
        }
    }
}

/// A list of the strongly connected components has no more parts than
/// another.
proof fn lemma_parts_count_le(g: &DirectedGraph, p1: Seq<Seq<usize>>, p2: Seq<Seq<usize>>)
    requires
        is_scc_partition(g, p1),
        is_scc_partition(g, p2),
        g.n() <= usize::MAX + 1,
    ensures
        p1.len() <= p2.len(),
{
    let f = |c: int| part_of(p2, p1[c][0]);
    let dom = vstd::set_lib::set_int_range(0, p1.len() as int);
    let img = dom.map(f);
    vstd::set_lib::lemma_int_range(0, p1.len() as int);
    vstd::set_lib::lemma_int_range(0, p2.len() as int);
    assert forall|c: int, d: int| dom.contains(c) && dom.contains(d) && #[trigger] f(c) == #[trigger] f(d) implies c == d by {
        lemma_part_match(g, p1, p2, c);
        lemma_part_match(g, p1, p2, d);
        assert(p1[c].len() > 0);
        assert(p1[c].contains(p1[c][0]));
        assert(p2[f(c)].contains(p1[c][0]));
        assert(p1[d].contains(p1[c][0]));
        lemma_flat_disjoint(p1, c, d, p1[c][0]);
    }
    assert(vstd::relations::injective_on(f, dom));
    vstd::set_lib::lemma_map_size(dom, img, f);
    assert forall|c2: int| img.contains(c2) implies vstd::set_lib::set_int_range(0, p2.len() as int).contains(c2) by {
        let c = choose|c: int| dom.contains(c) && f(c) == c2;
        lemma_part_match(g, p1, p2, c);
    }
    vstd::set_lib::lemma_len_subset(img, vstd::set_lib::set_int_range(0, p2.len() as int));
}

/// The strongly connected components of a graph do not depend on how they
/// were found: two lists of them have as many parts, and each part of one
/// holds exactly the members of a part of the other.
pub proof fn lemma_scc_partitions_agree(g: &DirectedGraph, p1: Seq<Seq<usize>>, p2: Seq<Seq<usize>>)
    requires
        is_scc_partition(g, p1),
        is_scc_partition(g, p2),
        g.n() <= usize::MAX + 1,
    ensures
        p1.len() == p2.len(),
        forall|c1: int| 0 <= c1 < p1.len() ==> exists|c2: int| 0 <= c2 < p2.len()
            && (#[trigger] p1[c1]).to_set() == p2[c2].to_set(),
{
    lemma_parts_count_le(g, p1, p2);
    lemma_parts_count_le(g, p2, p1);
    assert forall|c1: int| 0 <= c1 < p1.len() implies exists|c2: int| 0 <= c2 < p2.len()
        && (#[trigger] p1[c1]).to_set() == p2[c2].to_set() by {
        lemma_part_match(g, p1, p2, c1);
        let c2 = part_of(p2, p1[c1][0]);
        assert(p1[c1].to_set() =~= p2[c2].to_set());
    }
}

} // verus!
