//! Breadth-first traversal and shortest paths over the graph's edges.

use vstd::prelude::*;
use std::collections::HashSet;
use crate::{FabricId, GraphEdgeRef};
use crate::graph::{CsrGraph, targets};

verus! {

broadcast use vstd::std_specs::hash::group_hash_axioms;

/// Some edge leads from `a` to `b`.
pub open spec fn has_edge(e: Seq<GraphEdgeRef>, a: FabricId, b: FabricId) -> bool {
    exists|j: int| 0 <= j < e.len() && e[j].from_id == a && e[j].to_id == b
}

/// Step `i` of `p` follows an edge.
pub open spec fn step_ok(e: Seq<GraphEdgeRef>, p: Seq<FabricId>, i: int) -> bool {
    has_edge(e, p[i], p[i + 1])
}

/// `p` is a walk from `start`: a non-empty list of nodes that begins at
/// `start`, each node joined to the next by an edge. It has
/// `p.len() - 1` edges.
pub open spec fn walk_from(e: Seq<GraphEdgeRef>, p: Seq<FabricId>, start: FabricId) -> bool {
    &&& p.len() >= 1
    &&& p[0] == start
    &&& forall|i: int| 0 <= i < p.len() - 1 ==> #[trigger] step_ok(e, p, i)
}

/// A queue entry: a node, its depth, and the path that reached it.
type Entry = (FabricId, usize, Vec<FabricId>);

/// Some entry holds `v` at depth at most `d`.
spec fn found_within(q: Seq<Entry>, v: FabricId, d: int) -> bool {
    exists|m: int| 0 <= m < q.len() && (#[trigger] q[m]).0 == v && q[m].1 <= d
}

/// Some entry holds the node with identifier value `x`.
spec fn queued(q: Seq<Entry>, x: u128) -> bool {
    exists|m: int| 0 <= m < q.len() && (#[trigger] q[m]).0.0 == x
}

/// `v` is the start or the target of some edge.
spec fn candidate(e: Seq<GraphEdgeRef>, start: FabricId, v: FabricId) -> bool {
    v == start || exists|j: int| 0 <= j < e.len() && (#[trigger] e[j]).to_id == v
}

/// An entry's path is a walk from `start` of its depth, ending at its node.
spec fn entry_ok(e: Seq<GraphEdgeRef>, t: Entry, start: FabricId, lim: int) -> bool {
    &&& walk_from(e, t.2@, start)
    &&& t.2@.len() == t.1 + 1
    &&& t.2@.last() == t.0
    &&& t.1 <= lim
    &&& candidate(e, start, t.0)
}

/// The search queue: it begins with `start` at depth 0, every entry is a
/// walk of its depth, nodes occur once, and depths never decrease.
spec fn queue_ok(e: Seq<GraphEdgeRef>, q: Seq<Entry>, start: FabricId, lim: int) -> bool {
    &&& q.len() >= 1
    &&& q[0].0 == start
    &&& q[0].1 == 0
    &&& forall|m: int| 0 <= m < q.len() ==> entry_ok(e, #[trigger] q[m], start, lim) && q[m].1 <= m
    &&& forall|a: int, b: int| 0 <= a < b < q.len() ==> (#[trigger] q[a]).0 != (#[trigger] q[b]).0
    &&& forall|a: int, b: int| 0 <= a <= b < q.len() ==> (#[trigger] q[a]).1 <= (#[trigger] q[b]).1
}

/// Every entry before `head` that lies less than `lim` deep has each of its
/// successors in the queue at most one level deeper.
spec fn expanded(e: Seq<GraphEdgeRef>, q: Seq<Entry>, head: int, lim: int) -> bool {
    forall|k: int, v: FabricId|
        0 <= k < head && q[k].1 < lim && #[trigger] has_edge(e, q[k].0, v) ==> found_within(q, v, q[k].1 + 1)
}

/// Each target of a node's edges is joined to it by an edge.
proof fn lemma_targets_edge(s: Seq<GraphEdgeRef>, n: FabricId, i: int)
    requires
        0 <= i < targets(s, n, None).len(),
    ensures
        has_edge(s, n, targets(s, n, None)[i]),
    decreases s.len(),
{
    let t = targets(s, n, None);
    let last = s.len() - 1;
    if s.last().from_id == n {
        let t0 = targets(s.drop_last(), n, None);
        if i < t0.len() {
            lemma_targets_edge(s.drop_last(), n, i);
            let j = choose|j: int| 0 <= j < s.drop_last().len() && s.drop_last()[j].from_id == n && s.drop_last()[j].to_id == t0[i];
            assert(s[j] == s.drop_last()[j]);
        } else {
            assert(s[last] == s.last());
        }
    } else {
        lemma_targets_edge(s.drop_last(), n, i);
        let j = choose|j: int| 0 <= j < s.drop_last().len() && s.drop_last()[j].from_id == n && s.drop_last()[j].to_id == t[i];
        assert(s[j] == s.drop_last()[j]);
    }
}

/// The other end of every edge leaving a node is among its targets.
proof fn lemma_edge_in_targets(s: Seq<GraphEdgeRef>, n: FabricId, v: FabricId)
    requires
        has_edge(s, n, v),
    ensures
        exists|i: int| 0 <= i < targets(s, n, None).len() && targets(s, n, None)[i] == v,
    decreases s.len(),
{
    let j = choose|j: int| 0 <= j < s.len() && s[j].from_id == n && s[j].to_id == v;
    let t = targets(s, n, None);
    if j == s.len() - 1 {
        assert(s.last() == s[j]);
        assert(t[t.len() - 1] == v);
    } else {
        assert(s.drop_last()[j] == s[j]);
        lemma_edge_in_targets(s.drop_last(), n, v);
        let t0 = targets(s.drop_last(), n, None);
        let i = choose|i: int| 0 <= i < t0.len() && t0[i] == v;
        if s.last().from_id == n {
            assert(t[i] == t0[i]);
        }
    }
}

/// A walk extended by an edge from its end is a walk.
proof fn lemma_walk_extend(e: Seq<GraphEdgeRef>, p: Seq<FabricId>, start: FabricId, v: FabricId)
    requires
        walk_from(e, p, start),
        has_edge(e, p.last(), v),
    ensures
        walk_from(e, p.push(v), start),
{
    let q = p.push(v);
    assert forall|i: int| 0 <= i < q.len() - 1 implies #[trigger] step_ok(e, q, i) by {
        if i < p.len() - 1 {
            assert(step_ok(e, p, i));
            assert(q[i] == p[i] && q[i + 1] == p[i + 1]);
        } else {
            assert(q[i] == p.last() && q[i + 1] == v);
        }
    }
}

/// Distinct queue nodes drawn from the edge targets and the start number
/// at most one more than the edges.
proof fn lemma_queue_bound(e: Seq<GraphEdgeRef>, q: Seq<Entry>, start: FabricId)
    requires
        forall|a: int, b: int| 0 <= a < b < q.len() ==> (#[trigger] q[a]).0 != (#[trigger] q[b]).0,
        forall|m: int| 0 <= m < q.len() ==> candidate(e, start, (#[trigger] q[m]).0),
    ensures
        q.len() <= e.len() + 1,
{
    let ns = q.map_values(|t: Entry| t.0);
    let cs = e.map_values(|x: GraphEdgeRef| x.to_id).push(start);
    assert(ns.no_duplicates()) by {
        assert forall|a: int, b: int| 0 <= a < ns.len() && 0 <= b < ns.len() && a != b implies ns[a] != ns[b] by {
            if a < b {
                assert(q[a].0 != q[b].0);
            } else {
                assert(q[b].0 != q[a].0);
            }
        }
    }
    assert(ns.to_set().subset_of(cs.to_set())) by {
        assert forall|x: FabricId| ns.to_set().contains(x) implies cs.to_set().contains(x) by {
            let m = choose|m: int| 0 <= m < ns.len() && ns[m] == x;
            assert(candidate(e, start, q[m].0));
            if x == start {
                assert(cs[e.len() as int] == x);
            } else {
                let j = choose|j: int| 0 <= j < e.len() && (#[trigger] e[j]).to_id == x;
                assert(cs[j] == x);
            }
        }
    }
    ns.unique_seq_to_set();
    cs.lemma_cardinality_of_set();
    vstd::seq_lib::seq_to_set_is_finite(cs);
    vstd::set_lib::lemma_len_subset(ns.to_set(), cs.to_set());
}

/// A found node stays found when the queue grows.
proof fn lemma_found_push(q: Seq<Entry>, x: Entry, v: FabricId, d: int)
    requires
        found_within(q, v, d),
    ensures
        found_within(q.push(x), v, d),
{
    let m = choose|m: int| 0 <= m < q.len() && (#[trigger] q[m]).0 == v && q[m].1 <= d;
    assert(q.push(x)[m] == q[m]);
}

/// Growing the queue keeps what the processed entries found.
proof fn lemma_expanded_push(e: Seq<GraphEdgeRef>, q: Seq<Entry>, x: Entry, head: int, lim: int)
    requires
        expanded(e, q, head, lim),
        head <= q.len(),
    ensures
        expanded(e, q.push(x), head, lim),
{
    let q2 = q.push(x);
    assert forall|k: int, v: FabricId|
        0 <= k < head && q2[k].1 < lim && #[trigger] has_edge(e, q2[k].0, v) implies found_within(q2, v, q2[k].1 + 1) by {
        assert(q2[k] == q[k]);
        lemma_found_push(q, x, v, q[k].1 + 1);
    }
}

/// Appending a new, deepest entry keeps the queue well formed.
proof fn lemma_queue_push(e: Seq<GraphEdgeRef>, q: Seq<Entry>, start: FabricId, lim: int, x: Entry)
    requires
        queue_ok(e, q, start, lim),
        forall|m: int| 0 <= m < q.len() ==> (#[trigger] q[m]).0 != x.0 && q[m].1 <= x.1,
        entry_ok(e, x, start, lim),
        x.1 <= q.len(),
    ensures
        queue_ok(e, q.push(x), start, lim),
{
    let q2 = q.push(x);
    assert forall|m: int| 0 <= m < q2.len() implies entry_ok(e, #[trigger] q2[m], start, lim) && q2[m].1 <= m by {
        if m < q.len() {
            assert(q2[m] == q[m]);
        }
    }
    assert forall|a: int, b: int| 0 <= a < b < q2.len() implies (#[trigger] q2[a]).0 != (#[trigger] q2[b]).0 by {
        assert(q2[a] == q[a]);
        if b < q.len() {
            assert(q2[b] == q[b]);
        }
    }
    assert forall|a: int, b: int| 0 <= a <= b < q2.len() implies (#[trigger] q2[a]).1 <= (#[trigger] q2[b]).1 by {
        if b < q.len() {
            assert(q2[a] == q[a] && q2[b] == q[b]);
        } else if a < q.len() {
            assert(q2[a] == q[a]);
        }
    }
}

/// Reachability: when every entry shallower than `p`'s edge count is
/// processed and `p` has at most `lim` edges, the end of every walk `p`
/// from the start is in the queue at depth at most its edge count.
proof fn lemma_reach(e: Seq<GraphEdgeRef>, q: Seq<Entry>, start: FabricId, head: int, lim: int, p: Seq<FabricId>)
    requires
        queue_ok(e, q, start, lim),
        expanded(e, q, head, lim),
        walk_from(e, p, start),
        p.len() - 1 <= lim,
        forall|m: int| 0 <= m < q.len() && (#[trigger] q[m]).1 < p.len() - 1 ==> m < head,
    ensures
        found_within(q, p.last(), p.len() - 1),
    decreases p.len(),
{
    if p.len() == 1 {
        assert(q[0].0 == p.last());
    } else {
        let p0 = p.drop_last();
        assert forall|i: int| 0 <= i < p0.len() - 1 implies #[trigger] step_ok(e, p0, i) by {
            assert(step_ok(e, p, i));
        }
        assert forall|m: int| 0 <= m < q.len() && (#[trigger] q[m]).1 < p0.len() - 1 implies m < head by {}
        lemma_reach(e, q, start, head, lim, p0);
        let m = choose|m: int| 0 <= m < q.len() && (#[trigger] q[m]).0 == p0.last() && q[m].1 <= p0.len() - 1;
        assert(step_ok(e, p, p.len() - 2));
        assert(p[p.len() - 2] == p0.last());
        assert(has_edge(e, q[m].0, p.last()));
        let m2 = choose|m2: int| 0 <= m2 < q.len() && (#[trigger] q[m2]).0 == p.last() && q[m2].1 <= q[m].1 + 1;
        assert(q[m2].0 == p.last() && q[m2].1 <= p.len() - 1);
    }
}

/// A copy of a path.
fn copy_path(p: &Vec<FabricId>) -> (r: Vec<FabricId>)
    ensures
        r@ == p@,
{
    let mut r: Vec<FabricId> = Vec::new();
    let mut i: usize = 0;
    while i < p.len()
        invariant
            i <= p.len(),
            r@ == p@.subrange(0, i as int),
        decreases p.len() - i,
    {
        r.push(p[i]);
        assert(r@ =~= p@.subrange(0, i + 1));
        i = i + 1;
    }
    assert(p@.subrange(0, p@.len() as int) =~= p@);
    r
}

/// A copy of a path with one more node at its end.
fn extend_path(p: &Vec<FabricId>, v: FabricId) -> (r: Vec<FabricId>)
    ensures
        r@ == p@.push(v),
{
    let mut r = copy_path(p);
    r.push(v);
    r
}

impl CsrGraph {
    /// Breadth-first search from `start`, at most `max_depth` edges deep:
    /// one path per node reached, in the order nodes are reached.
    ///
    /// Every path is a walk from `start` of at most `max_depth` edges, the
    /// first is `[start]`, no node ends two paths, paths never get shorter
    /// along the list, and every node that some walk of at most `max_depth`
    /// edges reaches ends a path no longer than that walk (so each path is
    /// a shortest one).
    pub fn bfs(&self, start: FabricId, max_depth: usize) -> (r: Vec<Vec<FabricId>>)
        requires
            self.wf(),
        ensures
            r@.len() >= 1,
            r@[0]@ == seq![start],
            forall|k: int| 0 <= k < r@.len() ==> walk_from(self.edges_view(), (#[trigger] r@[k])@, start) && r@[k]@.len() <= max_depth + 1,
            forall|a: int, b: int| 0 <= a < b < r@.len() ==> (#[trigger] r@[a])@.last() != (#[trigger] r@[b])@.last(),
            forall|a: int, b: int| 0 <= a <= b < r@.len() ==> (#[trigger] r@[a])@.len() <= (#[trigger] r@[b])@.len(),
            forall|p: Seq<FabricId>| walk_from(self.edges_view(), p, start) && p.len() <= max_depth + 1 ==> exists|k: int|
                0 <= k < r@.len() && (#[trigger] r@[k])@.last() == p.last() && r@[k]@.len() <= p.len(),
    {
        let ghost e = self.edges_view();
        let ghost lim = max_depth as int;
        let mut visited: HashSet<u128> = HashSet::new();
        let mut queue: Vec<Entry> = Vec::new();
        let mut paths: Vec<Vec<FabricId>> = Vec::new();
        let mut first: Vec<FabricId> = Vec::new();
        first.push(start);
        queue.push((start, 0, first));
        visited.insert(start.0);
        let mut head: usize = 0;
        proof {
            assert(step_ok(e, queue@[0].2@, 0) ==> true);
            assert(queue@[0].2@ =~= seq![start]);
            assert(queued(queue@, start.0));
            assert forall|x: u128| visited@.contains(x) <==> queued(queue@, x) by {
                if queued(queue@, x) {
                    let m = choose|m: int| 0 <= m < queue@.len() && (#[trigger] queue@[m]).0.0 == x;
                    assert(m == 0);
                }
            }
        }
        while head < queue.len()
            invariant
                e == self.edges_view(),
                self.wf(),
                lim == max_depth,
                head <= queue@.len(),
                queue_ok(e, queue@, start, lim),
                queue@.len() <= e.len() + 1,
                forall|x: u128| visited@.contains(x) <==> queued(queue@, x),
                head < queue@.len() ==> forall|b: int| 0 <= b < queue@.len() ==> (#[trigger] queue@[b]).1 <= queue@[head as int].1 + 1,
                expanded(e, queue@, head as int, lim),
                paths@.len() == head,
                forall|k: int| 0 <= k < head ==> (#[trigger] paths@[k])@ == queue@[k].2@,
            decreases e.len() + 1 - head,
        {
            let node = queue[head].0;
            let depth = queue[head].1;
            let path = copy_path(&queue[head].2);
            let ghost h = head as int;
            paths.push(copy_path(&queue[head].2));
            if depth < max_depth {
                let nbrs = self.get_neighbors(node, None);
                let mut i: usize = 0;
                while i < nbrs.len()
                    invariant
                        e == self.edges_view(),
                        lim == max_depth,
                        nbrs@ == targets(e, node, None),
                        0 <= h < queue@.len(),
                        h == head,
                        queue@[h].0 == node,
                        queue@[h].1 == depth,
                        path@ == queue@[h].2@,
                        depth < max_depth,
                        i <= nbrs@.len(),
                        queue_ok(e, queue@, start, lim),
                        queue@.len() <= e.len() + 1,
                        forall|x: u128| visited@.contains(x) <==> queued(queue@, x),
                        forall|b: int| 0 <= b < queue@.len() ==> (#[trigger] queue@[b]).1 <= depth + 1,
                        expanded(e, queue@, h, lim),
                        forall|j: int| 0 <= j < i ==> found_within(queue@, #[trigger] nbrs@[j], depth + 1),
                        paths@.len() == h + 1,
                        forall|k: int| 0 <= k <= h ==> (#[trigger] paths@[k])@ == queue@[k].2@,
                    decreases nbrs@.len() - i,
                {
                    let nb = nbrs[i];
                    proof {
                        lemma_targets_edge(e, node, i as int);
                    }
                    if !visited.contains(&nb.0) {
                        visited.insert(nb.0);
                        let np = extend_path(&path, nb);
                        let ghost q0 = queue@;
                        let ghost x: Entry = (nb, (depth + 1) as usize, np);
                        proof {
                            assert forall|m: int| 0 <= m < q0.len() implies (#[trigger] q0[m]).0 != nb && q0[m].1 <= depth + 1 by {
                                if q0[m].0 == nb {
                                    assert(queued(q0, nb.0));
                                }
                            }
                            assert(entry_ok(e, q0[h], start, lim));
                            lemma_walk_extend(e, path@, start, nb);
                            let j = choose|j: int| 0 <= j < e.len() && e[j].from_id == node && e[j].to_id == nb;
                            assert(candidate(e, start, nb));
                            assert(q0[h].1 <= h);
                            lemma_queue_push(e, q0, start, lim, x);
                            lemma_expanded_push(e, q0, x, h, lim);
                        }
                        queue.push((nb, depth + 1, np));
                        proof {
                            assert(queue@ == q0.push(x));
                            assert forall|j: int| 0 <= j <= i implies found_within(queue@, #[trigger] nbrs@[j], depth + 1) by {
                                if j < i {
                                    lemma_found_push(q0, x, nbrs@[j], depth + 1);
                                } else {
                                    assert(queue@[q0.len() as int] == x);
                                }
                            }
                            assert forall|xx: u128| visited@.contains(xx) <==> queued(queue@, xx) by {
                                if queued(q0, xx) {
                                    let m = choose|m: int| 0 <= m < q0.len() && (#[trigger] q0[m]).0.0 == xx;
                                    assert(queue@[m] == q0[m]);
                                }
                                if xx == nb.0 {
                                    assert(queue@[q0.len() as int] == x);
                                }
                                if queued(queue@, xx) {
                                    let m = choose|m: int| 0 <= m < queue@.len() && (#[trigger] queue@[m]).0.0 == xx;
                                    if m < q0.len() {
                                        assert(queue@[m] == q0[m]);
                                    }
                                }
                            }
                            assert forall|k: int| 0 <= k <= h implies (#[trigger] paths@[k])@ == queue@[k].2@ by {
                                assert(queue@[k] == q0[k]);
                            }
                            lemma_queue_bound(e, queue@, start);
                        }
                    } else {
                        proof {
                            let m = choose|m: int| 0 <= m < queue@.len() && (#[trigger] queue@[m]).0.0 == nb.0;
                            assert(queue@[m].0 == nb);
                            assert(found_within(queue@, nb, depth + 1));
                        }
                    }
                    i = i + 1;
                }
                proof {
                    let q = queue@;
                    assert forall|k: int, v: FabricId|
                        0 <= k < h + 1 && q[k].1 < lim && #[trigger] has_edge(e, q[k].0, v) implies found_within(q, v, q[k].1 + 1) by {
                        if k == h {
                            lemma_edge_in_targets(e, node, v);
                            let j = choose|j: int| 0 <= j < targets(e, node, None).len() && targets(e, node, None)[j] == v;
                            assert(found_within(q, nbrs@[j], depth + 1));
                        }
                    }
                }
            }
            proof {
                let q = queue@;
                assert(q[h].1 == depth);
                if h + 1 < q.len() {
                    assert(q[h].1 <= q[h + 1].1);
                }
                assert forall|k: int| 0 <= k < h + 1 implies (#[trigger] paths@[k])@ == q[k].2@ by {}
            }
            head = head + 1;
        }
        proof {
            let q = queue@;
            assert(entry_ok(e, q[0], start, lim));
            assert(q[0].2@ =~= seq![start]);
            assert forall|k: int| 0 <= k < paths@.len() implies walk_from(e, (#[trigger] paths@[k])@, start) && paths@[k]@.len() <= max_depth + 1 by {
                assert(entry_ok(e, q[k], start, lim));
            }
            assert forall|a: int, b: int| 0 <= a < b < paths@.len() implies (#[trigger] paths@[a])@.last() != (#[trigger] paths@[b])@.last() by {
                assert(entry_ok(e, q[a], start, lim) && entry_ok(e, q[b], start, lim));
                assert(q[a].0 != q[b].0);
            }
            assert forall|a: int, b: int| 0 <= a <= b < paths@.len() implies (#[trigger] paths@[a])@.len() <= (#[trigger] paths@[b])@.len() by {
                assert(entry_ok(e, q[a], start, lim) && entry_ok(e, q[b], start, lim));
                assert(q[a].1 <= q[b].1);
            }
            assert forall|p: Seq<FabricId>| walk_from(e, p, start) && p.len() <= max_depth + 1 implies exists|k: int|
                0 <= k < paths@.len() && (#[trigger] paths@[k])@.last() == p.last() && paths@[k]@.len() <= p.len() by {
                lemma_reach(e, q, start, q.len() as int, lim, p);
                let m = choose|m: int| 0 <= m < q.len() && (#[trigger] q[m]).0 == p.last() && q[m].1 <= p.len() - 1;
                assert(entry_ok(e, q[m], start, lim));
                assert(paths@[m]@ == q[m].2@);
            }
        }
        paths
    }
    /// Breadth-first search for a shortest walk from `start` to `target`;
    /// nodes more than `max_depth` edges deep are not expanded.
    ///
    /// `[start]` when the two are the same node. Otherwise a path is a walk
    /// from `start` to `target` of at most `max_depth + 1` edges, and no
    /// walk between them is shorter; `None` means that every walk from
    /// `start` to `target` has more than `max_depth + 1` edges.
    pub fn shortest_path(&self, start: FabricId, target: FabricId, max_depth: usize) -> (r: Option<Vec<FabricId>>)
        requires
            self.wf(),
        ensures
            start == target ==> (r matches Some(p) && p@ == seq![start]),
            start != target ==> match r {
                Some(p) => {
                    &&& walk_from(self.edges_view(), p@, start)
                    &&& p@.last() == target
                    &&& p@.len() <= max_depth + 2
                    &&& forall|w: Seq<FabricId>| walk_from(self.edges_view(), w, start) && w.last() == target ==> p@.len() <= w.len()
                },
                None => forall|w: Seq<FabricId>| walk_from(self.edges_view(), w, start) && w.last() == target ==> w.len() > max_depth + 2,
            },
    {
        if start == target {
            let mut only: Vec<FabricId> = Vec::new();
            only.push(start);
            assert(only@ =~= seq![start]);
            return Some(only);
        }
        let ghost e = self.edges_view();
        let ghost lim = max_depth + 1;
        let mut visited: HashSet<u128> = HashSet::new();
        let mut queue: Vec<Entry> = Vec::new();
        let mut first: Vec<FabricId> = Vec::new();
        first.push(start);
        queue.push((start, 0, first));
        visited.insert(start.0);
        let mut head: usize = 0;
        proof {
            assert(queue@[0].2@ =~= seq![start]);
            assert(queued(queue@, start.0));
            assert forall|x: u128| visited@.contains(x) <==> queued(queue@, x) by {
                if queued(queue@, x) {
                    let m = choose|m: int| 0 <= m < queue@.len() && (#[trigger] queue@[m]).0.0 == x;
                    assert(m == 0);
                }
            }
        }
        while head < queue.len()
            invariant
                e == self.edges_view(),
                self.wf(),
                lim == max_depth + 1,
                start != target,
                head <= queue@.len(),
                queue_ok(e, queue@, start, lim),
                queue@.len() <= e.len() + 1,
                forall|x: u128| visited@.contains(x) <==> queued(queue@, x),
                forall|m: int| 0 <= m < queue@.len() ==> (#[trigger] queue@[m]).0 != target,
                head < queue@.len() ==> forall|b: int| 0 <= b < queue@.len() ==> (#[trigger] queue@[b]).1 <= queue@[head as int].1 + 1,
                expanded(e, queue@, head as int, lim),
            decreases e.len() + 1 - head,
        {
            let node = queue[head].0;
            let depth = queue[head].1;
            let path = copy_path(&queue[head].2);
            let ghost h = head as int;
            if depth <= max_depth {
                let nbrs = self.get_neighbors(node, None);
                let mut i: usize = 0;
                while i < nbrs.len()
                    invariant
                        e == self.edges_view(),
                        lim == max_depth + 1,
                        start != target,
                        nbrs@ == targets(e, node, None),
                        0 <= h < queue@.len(),
                        h == head,
                        queue@[h].0 == node,
                        queue@[h].1 == depth,
                        path@ == queue@[h].2@,
                        depth <= max_depth,
                        i <= nbrs@.len(),
                        queue_ok(e, queue@, start, lim),
                        queue@.len() <= e.len() + 1,
                        forall|x: u128| visited@.contains(x) <==> queued(queue@, x),
                        forall|m: int| 0 <= m < queue@.len() ==> (#[trigger] queue@[m]).0 != target,
                        forall|b: int| 0 <= b < queue@.len() ==> (#[trigger] queue@[b]).1 <= depth + 1,
                        expanded(e, queue@, h, lim),
                        forall|j: int| 0 <= j < i ==> found_within(queue@, #[trigger] nbrs@[j], depth + 1),
                    decreases nbrs@.len() - i,
                {
                    let nb = nbrs[i];
                    proof {
                        lemma_targets_edge(e, node, i as int);
                    }
                    if !visited.contains(&nb.0) {
                        let np = extend_path(&path, nb);
                        proof {
                            assert(entry_ok(e, queue@[h], start, lim));
                            lemma_walk_extend(e, path@, start, nb);
                        }
                        if nb == target {
                            proof {
                                let q = queue@;
                                assert forall|w: Seq<FabricId>| walk_from(e, w, start) && w.last() == target implies np@.len() <= w.len() by {
                                    if w.len() - 1 <= depth {
                                        assert forall|m: int| 0 <= m < q.len() && (#[trigger] q[m]).1 < w.len() - 1 implies m < h by {
                                            if m >= h {
                                                assert(q[h].1 <= q[m].1);
                                            }
                                        }
                                        lemma_reach(e, q, start, h, lim, w);
                                        let m = choose|m: int| 0 <= m < q.len() && (#[trigger] q[m]).0 == w.last() && q[m].1 <= w.len() - 1;
                                        assert(q[m].0 != target);
                                    }
                                }
                            }
                            return Some(np);
                        }
                        visited.insert(nb.0);
                        let cur_len = queue.len();
                        let ghost q0 = queue@;
                        let ghost x: Entry = (nb, (depth + 1) as usize, np);
                        proof {
                            assert forall|m: int| 0 <= m < q0.len() implies (#[trigger] q0[m]).0 != nb && q0[m].1 <= depth + 1 by {
                                if q0[m].0 == nb {
                                    assert(queued(q0, nb.0));
                                }
                            }
                            let j = choose|j: int| 0 <= j < e.len() && e[j].from_id == node && e[j].to_id == nb;
                            assert(candidate(e, start, nb));
                            assert(q0[h].1 <= h);
                            assert(depth + 1 <= cur_len);
                            lemma_queue_push(e, q0, start, lim, x);
                            lemma_expanded_push(e, q0, x, h, lim);
                        }
                        queue.push((nb, depth + 1, np));
                        proof {
                            assert(queue@ == q0.push(x));
                            assert forall|j: int| 0 <= j <= i implies found_within(queue@, #[trigger] nbrs@[j], depth + 1) by {
                                if j < i {
                                    lemma_found_push(q0, x, nbrs@[j], depth + 1);
                                } else {
                                    assert(queue@[q0.len() as int] == x);
                                }
                            }
                            assert forall|xx: u128| visited@.contains(xx) <==> queued(queue@, xx) by {
                                if queued(q0, xx) {
                                    let m = choose|m: int| 0 <= m < q0.len() && (#[trigger] q0[m]).0.0 == xx;
                                    assert(queue@[m] == q0[m]);
                                }
                                if xx == nb.0 {
                                    assert(queue@[q0.len() as int] == x);
                                }
                                if queued(queue@, xx) {
                                    let m = choose|m: int| 0 <= m < queue@.len() && (#[trigger] queue@[m]).0.0 == xx;
                                    if m < q0.len() {
                                        assert(queue@[m] == q0[m]);
                                    }
                                }
                            }
                            assert forall|m: int| 0 <= m < queue@.len() implies (#[trigger] queue@[m]).0 != target by {
                                if m < q0.len() {
                                    assert(queue@[m] == q0[m]);
                                }
                            }
                            lemma_queue_bound(e, queue@, start);
                        }
                    } else {
                        proof {
                            let m = choose|m: int| 0 <= m < queue@.len() && (#[trigger] queue@[m]).0.0 == nb.0;
                            assert(queue@[m].0 == nb);
                            assert(found_within(queue@, nb, depth + 1));
                        }
                    }
                    i = i + 1;
                }
                proof {
                    let q = queue@;
                    assert forall|k: int, v: FabricId|
                        0 <= k < h + 1 && q[k].1 < lim && #[trigger] has_edge(e, q[k].0, v) implies found_within(q, v, q[k].1 + 1) by {
                        if k == h {
                            lemma_edge_in_targets(e, node, v);
                            let j = choose|j: int| 0 <= j < targets(e, node, None).len() && targets(e, node, None)[j] == v;
                            assert(found_within(q, nbrs@[j], depth + 1));
                        }
                    }
                }
            }
            proof {
                let q = queue@;
                assert(q[h].1 == depth);
                if h + 1 < q.len() {
                    assert(q[h].1 <= q[h + 1].1);
                }
            }
            head = head + 1;
        }
        proof {
            let q = queue@;
            assert forall|w: Seq<FabricId>| walk_from(e, w, start) && w.last() == target implies w.len() > max_depth + 2 by {
                if w.len() <= max_depth + 2 {
                    lemma_reach(e, q, start, q.len() as int, lim, w);
                    let m = choose|m: int| 0 <= m < q.len() && (#[trigger] q[m]).0 == w.last() && q[m].1 <= w.len() - 1;
                    assert(q[m].0 != target);
                }
            }
        }
        None
    }
}

} // verus!
