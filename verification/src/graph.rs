//! Graph adjacency index in compressed sparse row (CSR) form, with
//! breadth-first traversal and shortest-path search.

use vstd::prelude::*;
use std::collections::HashMap;
use crate::{FabricId, GraphEdgeRef};
use crate::keyed::StringMap;

verus! {

broadcast use vstd::std_specs::hash::group_hash_axioms;

/// Re-export of the fabric's result type.
pub type Result<T> = std::result::Result<T, crate::error::CdfError>;

/// Whether edge `e` has the requested type (any type when none is given).
pub open spec fn type_ok(e: GraphEdgeRef, et: Option<Seq<char>>) -> bool {
    match et {
        None => true,
        Some(t) => e.edge_type@ == t,
    }
}

pub open spec fn opt_text(et: Option<&str>) -> Option<Seq<char>> {
    match et {
        Some(t) => Some(t@),
        None => None,
    }
}

/// The edges of `s` leaving `node`, in order.
pub open spec fn from_edges(s: Seq<GraphEdgeRef>, node: FabricId) -> Seq<GraphEdgeRef>
    decreases s.len(),
{
    if s.len() == 0 {
        Seq::empty()
    } else if s.last().from_id == node {
        from_edges(s.drop_last(), node).push(s.last())
    } else {
        from_edges(s.drop_last(), node)
    }
}

/// The targets of the edges of `s` that leave `node` with the requested
/// type, in order.
pub open spec fn targets(s: Seq<GraphEdgeRef>, node: FabricId, et: Option<Seq<char>>) -> Seq<FabricId>
    decreases s.len(),
{
    if s.len() == 0 {
        Seq::empty()
    } else if s.last().from_id == node && type_ok(s.last(), et) {
        targets(s.drop_last(), node, et).push(s.last().to_id)
    } else {
        targets(s.drop_last(), node, et)
    }
}

/// The key/value pairs of a JSON object in its iteration order, each value
/// rendered as JSON text. A function of the object alone.
pub uninterp spec fn json_text_pairs(m: serde_json::Map<String, serde_json::Value>) -> Seq<(Seq<char>, Seq<char>)>;

/// The text views of string pairs.
pub open spec fn pair_views(v: Seq<(String, String)>) -> Seq<(Seq<char>, Seq<char>)> {
    v.map_values(|p: (String, String)| (p.0@, p.1@))
}

/// The map that inserting the pairs in order builds: a later pair with the
/// same key replaces an earlier one.
pub open spec fn pairs_map(s: Seq<(Seq<char>, Seq<char>)>) -> Map<Seq<char>, Seq<char>>
    decreases s.len(),
{
    if s.len() == 0 {
        Map::empty()
    } else {
        pairs_map(s.drop_last()).insert(s.last().0, s.last().1)
    }
}

/// Lists the key/value pairs of a JSON object (`serde_json::Map::iter`),
/// each value rendered as JSON text (`Value`'s `Display`); the pairs are
/// named by `json_text_pairs`.
#[verifier::external_body]
fn json_props_pairs(m: &serde_json::Map<String, serde_json::Value>) -> (r: Vec<(String, String)>)
    ensures
        pair_views(r@) == json_text_pairs(*m),
{
    m.iter().map(|(k, v)| (k.clone(), v.to_string())).collect()
}

/// The text form of an edge's properties: each key with its value
/// rendered as JSON text.
fn props_text(m: &serde_json::Map<String, serde_json::Value>) -> (r: StringMap)
    ensures
        r.wf(),
        r@ == pairs_map(json_text_pairs(*m)),
{
    let pairs = json_props_pairs(m);
    let ghost pv = pair_views(pairs@);
    let mut r = StringMap::new();
    let mut i: usize = 0;
    while i < pairs.len()
        invariant
            i <= pairs.len(),
            pv == pair_views(pairs@),
            r.wf(),
            r@ == pairs_map(pv.subrange(0, i as int)),
        decreases pairs.len() - i,
    {
        proof {
            let t = pv.subrange(0, i + 1);
            assert(t.drop_last() =~= pv.subrange(0, i as int));
            assert(t.last() == (pairs@[i as int].0@, pairs@[i as int].1@));
        }
        r.insert(pairs[i].0.clone(), pairs[i].1.clone());
        i = i + 1;
    }
    assert(pv.subrange(0, pv.len() as int) =~= pv);
    r
}

/// Compressed sparse row graph.
pub struct CsrGraph {
    nodes: HashMap<u128, Vec<String>>,
    edges: Vec<GraphEdgeRef>,
    sorted_from_ids: Vec<FabricId>,
    row_ptr: Vec<usize>,
    col_idx: Vec<FabricId>,
    edge_types: Vec<String>,
    edge_props: Vec<StringMap>,
    dirty: bool,
}


/// Splitting a list splits the edges leaving a node.
pub proof fn lemma_from_edges_concat(a: Seq<GraphEdgeRef>, b: Seq<GraphEdgeRef>, n: FabricId)
    ensures
        from_edges(a + b, n) == from_edges(a, n) + from_edges(b, n),
    decreases b.len(),
{
    if b.len() == 0 {
        assert(a + b =~= a);
        assert(from_edges(a, n) + from_edges(b, n) =~= from_edges(a, n));
    } else {
        lemma_from_edges_concat(a, b.drop_last(), n);
        assert((a + b).drop_last() =~= a + b.drop_last());
        assert((a + b).last() == b.last());
        if b.last().from_id == n {
            assert(from_edges(a, n) + from_edges(b.drop_last(), n).push(b.last()) =~= (from_edges(
                a,
                n,
            ) + from_edges(b.drop_last(), n)).push(b.last()));
        }
    }
}

/// Splitting a list splits the targets of a node.
pub proof fn lemma_targets_concat(a: Seq<GraphEdgeRef>, b: Seq<GraphEdgeRef>, n: FabricId, et: Option<Seq<char>>)
    ensures
        targets(a + b, n, et) == targets(a, n, et) + targets(b, n, et),
    decreases b.len(),
{
    if b.len() == 0 {
        assert(a + b =~= a);
        assert(targets(a, n, et) + targets(b, n, et) =~= targets(a, n, et));
    } else {
        lemma_targets_concat(a, b.drop_last(), n, et);
        assert((a + b).drop_last() =~= a + b.drop_last());
        assert((a + b).last() == b.last());
        if b.last().from_id == n && type_ok(b.last(), et) {
            assert(targets(a, n, et) + targets(b.drop_last(), n, et).push(b.last().to_id) =~= (
            targets(a, n, et) + targets(b.drop_last(), n, et)).push(b.last().to_id));
        }
    }
}

/// A list without edges leaving `n` has no targets of `n` and no edges
/// leaving `n`.
pub proof fn lemma_no_edges_from(s: Seq<GraphEdgeRef>, n: FabricId, et: Option<Seq<char>>)
    requires
        forall|j: int| 0 <= j < s.len() ==> (#[trigger] s[j]).from_id != n,
    ensures
        targets(s, n, et) == Seq::<FabricId>::empty(),
        from_edges(s, n) == Seq::<GraphEdgeRef>::empty(),
    decreases s.len(),
{
    if s.len() > 0 {
        assert(s.last() == s[s.len() - 1]);
        lemma_no_edges_from(s.drop_last(), n, et);
    }
}

/// The targets of a node depend only on the edges leaving it.
pub proof fn lemma_targets_from_edges(s: Seq<GraphEdgeRef>, n: FabricId, et: Option<Seq<char>>)
    ensures
        targets(s, n, et) == targets(from_edges(s, n), n, et),
    decreases s.len(),
{
    if s.len() > 0 {
        lemma_targets_from_edges(s.drop_last(), n, et);
        if s.last().from_id == n {
            let f = from_edges(s.drop_last(), n);
            assert(f.push(s.last()).drop_last() =~= f);
        }
    }
}

/// Every edge of `from_edges(s, n)` leaves `n`.
pub proof fn lemma_from_edges_leave(s: Seq<GraphEdgeRef>, n: FabricId)
    ensures
        forall|j: int| 0 <= j < from_edges(s, n).len() ==> (#[trigger] from_edges(s, n)[j]).from_id == n,
        from_edges(s, n).len() <= s.len(),
    decreases s.len(),
{
    if s.len() > 0 {
        lemma_from_edges_leave(s.drop_last(), n);
    }
}

/// Filtering the edges leaving `k` by those leaving `n`.
pub proof fn lemma_from_edges_twice(s: Seq<GraphEdgeRef>, k: FabricId, n: FabricId)
    ensures
        from_edges(from_edges(s, k), n) == if k == n {
            from_edges(s, n)
        } else {
            Seq::<GraphEdgeRef>::empty()
        },
    decreases s.len(),
{
    if s.len() > 0 {
        lemma_from_edges_twice(s.drop_last(), k, n);
        if s.last().from_id == k {
            let f = from_edges(s.drop_last(), k);
            assert(f.push(s.last()).drop_last() =~= f);
        }
    }
}

/// The edges of `s` grouped by source, sources taken in the order of `keys`.
pub open spec fn group_concat(s: Seq<GraphEdgeRef>, keys: Seq<FabricId>) -> Seq<GraphEdgeRef>
    decreases keys.len(),
{
    if keys.len() == 0 {
        Seq::empty()
    } else {
        group_concat(s, keys.drop_last()) + from_edges(s, keys.last())
    }
}

/// Grouping keeps exactly the edges leaving the grouped sources.
proof fn lemma_group_concat_from(s: Seq<GraphEdgeRef>, keys: Seq<FabricId>, n: FabricId)
    requires
        keys.no_duplicates(),
    ensures
        from_edges(group_concat(s, keys), n) == if keys.contains(n) {
            from_edges(s, n)
        } else {
            Seq::<GraphEdgeRef>::empty()
        },
    decreases keys.len(),
{
    if keys.len() > 0 {
        let kd = keys.drop_last();
        assert(kd.no_duplicates());
        lemma_group_concat_from(s, kd, n);
        lemma_from_edges_concat(group_concat(s, kd), from_edges(s, keys.last()), n);
        lemma_from_edges_twice(s, keys.last(), n);
        if keys.last() == n {
            if kd.contains(n) {
                let i = choose|i: int| 0 <= i < kd.len() && kd[i] == n;
                assert(keys[i] == keys[keys.len() - 1]);
            }
            assert(keys[keys.len() - 1] == n);
            assert(Seq::<GraphEdgeRef>::empty() + from_edges(s, n) =~= from_edges(s, n));
        } else {
            if keys.contains(n) {
                let i = choose|i: int| 0 <= i < keys.len() && keys[i] == n;
                assert(kd[i] == n);
            }
            if kd.contains(n) {
                let i = choose|i: int| 0 <= i < kd.len() && kd[i] == n;
                assert(keys[i] == n);
            }
            assert(from_edges(group_concat(s, kd), n) + Seq::<GraphEdgeRef>::empty()
                =~= from_edges(group_concat(s, kd), n));
        }
    }
}

/// Adding an edge to `s` grows the grouping by one exactly when its source
/// is grouped.
proof fn lemma_group_concat_len_step(s: Seq<GraphEdgeRef>, keys: Seq<FabricId>)
    requires
        keys.no_duplicates(),
        s.len() > 0,
    ensures
        group_concat(s, keys).len() == group_concat(s.drop_last(), keys).len() + if keys.contains(
            s.last().from_id,
        ) {
            1int
        } else {
            0int
        },
    decreases keys.len(),
{
    if keys.len() > 0 {
        let kd = keys.drop_last();
        assert(kd.no_duplicates());
        lemma_group_concat_len_step(s, kd);
        if keys.last() == s.last().from_id {
            if kd.contains(s.last().from_id) {
                let i = choose|i: int| 0 <= i < kd.len() && kd[i] == s.last().from_id;
                assert(keys[i] == keys[keys.len() - 1]);
            }
            assert(keys[keys.len() - 1] == s.last().from_id);
        } else {
            if keys.contains(s.last().from_id) {
                let i = choose|i: int| 0 <= i < keys.len() && keys[i] == s.last().from_id;
                assert(kd[i] == s.last().from_id);
            }
            if kd.contains(s.last().from_id) {
                let i = choose|i: int| 0 <= i < kd.len() && kd[i] == s.last().from_id;
                assert(keys[i] == s.last().from_id);
            }
        }
    }
}

/// Grouping an empty list gives nothing.
proof fn lemma_group_concat_empty(s: Seq<GraphEdgeRef>, keys: Seq<FabricId>)
    requires
        s.len() == 0,
    ensures
        group_concat(s, keys).len() == 0,
    decreases keys.len(),
{
    if keys.len() > 0 {
        lemma_group_concat_empty(s, keys.drop_last());
    }
}

/// Grouping never holds more edges than the list; grouping by all sources
/// keeps every edge.
proof fn lemma_group_concat_len(s: Seq<GraphEdgeRef>, keys: Seq<FabricId>)
    requires
        keys.no_duplicates(),
    ensures
        group_concat(s, keys).len() <= s.len(),
        (forall|j: int| 0 <= j < s.len() ==> keys.contains(#[trigger] s[j].from_id)) ==> group_concat(
            s,
            keys,
        ).len() == s.len(),
    decreases s.len(),
{
    if s.len() == 0 {
        lemma_group_concat_empty(s, keys);
    } else {
        let sd = s.drop_last();
        lemma_group_concat_len(sd, keys);
        lemma_group_concat_len_step(s, keys);
        if forall|j: int| 0 <= j < s.len() ==> keys.contains(#[trigger] s[j].from_id) {
            assert forall|j: int| 0 <= j < sd.len() implies keys.contains(#[trigger] sd[j].from_id) by {
                assert(sd[j] == s[j]);
            }
            assert(s.last() == s[s.len() - 1]);
            assert(keys.contains(s[s.len() - 1].from_id));
        }
    }
}

/// Finds the row of an index in a monotone row-offset list.
proof fn lemma_row_of(rp: Seq<usize>, hi: int, j: int) -> (g: int)
    requires
        0 < hi < rp.len(),
        rp[0] <= j < rp[hi],
        forall|a: int, b: int| 0 <= a <= b < rp.len() ==> rp[a] <= rp[b],
    ensures
        0 <= g < hi,
        rp[g] <= j < rp[g + 1],
    decreases hi,
{
    if j >= rp[hi - 1] {
        hi - 1
    } else {
        lemma_row_of(rp, hi - 1, j)
    }
}

impl CsrGraph {
    /// The edges, in stored order.
    pub closed spec fn edges_view(&self) -> Seq<GraphEdgeRef> {
        self.edges@
    }

    /// The nodes with their labels, by identifier value.
    pub closed spec fn node_view(&self) -> Map<u128, Vec<String>> {
        self.nodes@
    }

    /// Whether the CSR arrays lag behind the edge list.
    pub closed spec fn is_dirty(&self) -> bool {
        self.dirty
    }

    /// The CSR arrays describe the edge list: sources strictly increase,
    /// each source owns the contiguous run of edges between its offsets,
    /// and the target, type and property arrays mirror the edges (each
    /// edge's properties as text).
    closed spec fn csr_wf(&self) -> bool {
        let k = self.sorted_from_ids@;
        let rp = self.row_ptr@;
        let e = self.edges@;
        &&& forall|a: int, b: int| 0 <= a < b < k.len() ==> k[a].0 < k[b].0
        &&& rp.len() == k.len() + 1
        &&& rp[0] == 0
        &&& rp[k.len() as int] == e.len()
        &&& forall|a: int, b: int| 0 <= a <= b < rp.len() ==> rp[a] <= rp[b]
        &&& forall|g: int, j: int|
            #![trigger k[g], e[j]]
            0 <= g < k.len() && rp[g] <= j < rp[g + 1] ==> e[j].from_id == k[g]
        &&& self.col_idx@.len() == e.len()
        &&& self.edge_types@.len() == e.len()
        &&& self.edge_props@.len() == e.len()
        &&& forall|j: int|
            0 <= j < e.len() ==> self.col_idx@[j] == (#[trigger] e[j]).to_id && self.edge_types@[j]@
                == e[j].edge_type@ && self.edge_props@[j]@ == pairs_map(json_text_pairs(e[j].properties))
    }

    /// The graph is well formed: when not marked dirty, the CSR arrays are
    /// up to date.
    pub closed spec fn wf(&self) -> bool {
        &&& !self.dirty ==> self.csr_wf()
        &&& vstd::std_specs::hash::obeys_key_model::<u128>()
    }

    pub fn new() -> (g: CsrGraph)
        ensures
            g.wf(),
            g.edges_view() == Seq::<GraphEdgeRef>::empty(),
            g.node_view() == Map::<u128, Vec<String>>::empty(),
    {
        let g = CsrGraph {
            nodes: HashMap::new(),
            edges: Vec::new(),
            sorted_from_ids: Vec::new(),
            row_ptr: vec![0],
            col_idx: Vec::new(),
            edge_types: Vec::new(),
            edge_props: Vec::new(),
            dirty: false,
        };
        g
    }

    /// Adds a node with its labels, unless a node with that identifier
    /// exists already.
    pub fn add_node(&mut self, id: FabricId, labels: Vec<String>)
        requires
            old(self).wf(),
        ensures
            final(self).wf(),
            final(self).node_view() == if old(self).node_view().contains_key(id.0) {
                old(self).node_view()
            } else {
                old(self).node_view().insert(id.0, labels)
            },
            final(self).edges_view() == old(self).edges_view(),
    {
        if !self.nodes.contains_key(&id.0) {
            self.nodes.insert(id.0, labels);
        }
    }

    /// Adds an edge; the CSR arrays are rebuilt on the next refresh.
    pub fn add_edge(&mut self, edge: GraphEdgeRef)
        requires
            old(self).wf(),
        ensures
            final(self).wf(),
            final(self).is_dirty(),
            final(self).edges_view() == old(self).edges_view().push(edge),
            final(self).node_view() == old(self).node_view(),
    {
        self.edges.push(edge);
        self.dirty = true;
    }

    /// Number of nodes.
    pub fn node_count(&self) -> (n: usize)
        requires
            self.wf(),
        ensures
            n == self.node_view().len(),
    {
        self.nodes.len()
    }

    /// Number of edges.
    pub fn edge_count(&self) -> (n: usize)
        ensures
            n == self.edges_view().len(),
    {
        self.edges.len()
    }

    /// All edges leaving `node`, in stored order.
    pub fn get_outgoing_edges(&self, node: FabricId) -> (r: Vec<GraphEdgeRef>)
        ensures
            r@ == from_edges(self.edges_view(), node),
    {
        let mut r: Vec<GraphEdgeRef> = Vec::new();
        let mut i: usize = 0;
        while i < self.edges.len()
            invariant
                i <= self.edges.len(),
                r@ == from_edges(self.edges@.subrange(0, i as int), node),
            decreases self.edges.len() - i,
        {
            assert(self.edges@.subrange(0, i + 1).drop_last() =~= self.edges@.subrange(0, i as int));
            if self.edges[i].from_id.0 == node.0 {
                r.push(self.edges[i].clone());
            }
            i = i + 1;
        }
        assert(self.edges@.subrange(0, self.edges.len() as int) =~= self.edges@);
        r
    }

    /// The row of `from` in the CSR arrays, by binary search.
    fn find_row(&self, from: FabricId) -> (r: Option<usize>)
        requires
            self.csr_wf(),
        ensures
            match r {
                Some(g) => g < self.sorted_from_ids@.len() && self.sorted_from_ids@[g as int] == from,
                None => forall|g: int|
                    0 <= g < self.sorted_from_ids@.len() ==> self.sorted_from_ids@[g] != from,
            },
    {
        let k = &self.sorted_from_ids;
        let mut lo: usize = 0;
        let mut hi: usize = k.len();
        while lo < hi
            invariant
                lo <= hi <= k.len(),
                k@ == self.sorted_from_ids@,
                forall|a: int, b: int| 0 <= a < b < k@.len() ==> k@[a].0 < k@[b].0,
                forall|g: int| 0 <= g < lo ==> k@[g].0 < from.0,
                forall|g: int| hi <= g < k@.len() ==> k@[g].0 > from.0,
            decreases hi - lo,
        {
            let mid = lo + (hi - lo) / 2;
            let v = k[mid].0;
            if v == from.0 {
                return Some(mid);
            } else if v < from.0 {
                lo = mid + 1;
            } else {
                hi = mid;
            }
        }
        None
    }

    /// The targets of the edges leaving `node` with the requested type (any
    /// type when `edge_type` is `None`), in stored order.
    pub fn get_neighbors(&self, node: FabricId, edge_type: Option<&str>) -> (r: Vec<FabricId>)
        requires
            self.wf(),
        ensures
            r@ == targets(self.edges_view(), node, opt_text(edge_type)),
    {
        let ghost et = opt_text(edge_type);
        let want: Option<String> = match edge_type {
            Some(t) => Some(String::from_str(t)),
            None => None,
        };
        if self.dirty {
            let mut r: Vec<FabricId> = Vec::new();
            let mut i: usize = 0;
            while i < self.edges.len()
                invariant
                    i <= self.edges.len(),
                    et == match want {
                        Some(t) => Some(t@),
                        None => None::<Seq<char>>,
                    },
                    r@ == targets(self.edges@.subrange(0, i as int), node, et),
                decreases self.edges.len() - i,
            {
                assert(self.edges@.subrange(0, i + 1).drop_last() =~= self.edges@.subrange(
                    0,
                    i as int,
                ));
                let e = &self.edges[i];
                let ok = match &want {
                    Some(t) => e.edge_type == *t,
                    None => true,
                };
                if e.from_id.0 == node.0 && ok {
                    r.push(e.to_id);
                }
                i = i + 1;
            }
            assert(self.edges@.subrange(0, self.edges.len() as int) =~= self.edges@);
            return r;
        }
        let ghost e = self.edges@;
        let ghost k = self.sorted_from_ids@;
        let ghost rp = self.row_ptr@;
        match self.find_row(node) {
            None => {
                proof {
                    assert forall|j: int| 0 <= j < e.len() implies (#[trigger] e[j]).from_id != node by {
                        let g = lemma_row_of(rp, k.len() as int, j);
                        assert(e[j].from_id == k[g]);
                    }
                    lemma_no_edges_from(e, node, et);
                }
                Vec::new()
            },
            Some(row) => {
                let nrows = self.row_ptr.len();
                assert(row + 1 < nrows);
                let start = self.row_ptr[row];
                let end = self.row_ptr[row + 1];
                let mut r: Vec<FabricId> = Vec::new();
                let mut i: usize = start;
                while i < end
                    invariant
                        start <= i <= end,
                        end <= e.len(),
                        start == rp[row as int],
                        end == rp[row + 1],
                        row < k.len(),
                        e == self.edges@,
                        k == self.sorted_from_ids@,
                        rp == self.row_ptr@,
                        k[row as int] == node,
                        self.csr_wf(),
                        et == match want {
                            Some(t) => Some(t@),
                            None => None::<Seq<char>>,
                        },
                        r@ == targets(e.subrange(start as int, i as int), node, et),
                    decreases end - i,
                {
                    assert(e.subrange(start as int, i + 1).drop_last() =~= e.subrange(
                        start as int,
                        i as int,
                    ));
                    assert(e[i as int].from_id == k[row as int]);
                    let ok = match &want {
                        Some(t) => self.edge_types[i] == *t,
                        None => true,
                    };
                    if ok {
                        r.push(self.col_idx[i]);
                    }
                    i = i + 1;
                }
                proof {
                    let a = e.subrange(0, start as int);
                    let b = e.subrange(start as int, end as int);
                    let c = e.subrange(end as int, e.len() as int);
                    assert(e =~= a + b + c);
                    assert forall|j: int| 0 <= j < a.len() implies (#[trigger] a[j]).from_id != node by {
                        let g = lemma_row_of(rp, k.len() as int, j);
                        assert(e[j].from_id == k[g]);
                        assert(a[j] == e[j]);
                        if g >= row {
                            assert(rp[row as int] <= rp[g]);
                        }
                    }
                    assert forall|j: int| 0 <= j < c.len() implies (#[trigger] c[j]).from_id != node by {
                        let g = lemma_row_of(rp, k.len() as int, j + end);
                        assert(e[j + end].from_id == k[g]);
                        assert(c[j] == e[j + end]);
                        if g <= row {
                            assert(rp[g + 1] <= rp[row + 1]);
                        }
                    }
                    lemma_no_edges_from(a, node, et);
                    lemma_no_edges_from(c, node, et);
                    lemma_targets_concat(a + b, c, node, et);
                    lemma_targets_concat(a, b, node, et);
                    assert(Seq::<FabricId>::empty() + targets(b, node, et) + Seq::<FabricId>::empty()
                        =~= targets(b, node, et));
                }
                r
            },
        }
    }
}


/// Edges are sorted by source.
pub open spec fn edges_sorted(e: Seq<GraphEdgeRef>) -> bool {
    forall|i: int, j: int| 0 <= i < j < e.len() ==> (#[trigger] e[i]).from_id.0 <= (#[trigger] e[j]).from_id.0
}

/// Keys strictly increase.
pub open spec fn ids_increasing(k: Seq<FabricId>) -> bool {
    forall|a: int, b: int| 0 <= a < b < k.len() ==> k[a].0 < k[b].0
}

/// Adds `x` to a strictly increasing key list, keeping it so.
fn insert_key(keys: &mut Vec<FabricId>, x: FabricId)
    requires
        ids_increasing(old(keys)@),
    ensures
        ids_increasing(final(keys)@),
        forall|y: FabricId| final(keys)@.contains(y) <==> (old(keys)@.contains(y) || y == x),
{
    let mut i: usize = 0;
    while i < keys.len() && keys[i].0 < x.0
        invariant
            i <= keys.len(),
            keys@ == old(keys)@,
            forall|j: int| 0 <= j < i ==> keys@[j].0 < x.0,
        decreases keys.len() - i,
    {
        i = i + 1;
    }
    if i < keys.len() && keys[i].0 == x.0 {
        proof {
            assert(keys@[i as int] == x);
            assert forall|y: FabricId| keys@.contains(y) <==> (old(keys)@.contains(y) || y == x) by {
                if y == x {
                    assert(keys@[i as int] == y);
                }
            }
        }
        return;
    }
    let ghost pre = keys@;
    keys.insert(i, x);
    proof {
        let post = keys@;
        assert(post == pre.insert(i as int, x));
        assert forall|a: int, b: int| 0 <= a < b < post.len() implies post[a].0 < post[b].0 by {
            if b < i {
                assert(post[a] == pre[a] && post[b] == pre[b]);
            } else if b == i {
                assert(post[a] == pre[a]);
            } else if a < i {
                assert(post[a] == pre[a] && post[b] == pre[b - 1]);
                assert(pre[b - 1].0 >= x.0);
                if b - 1 > i {
                    assert(pre[i as int].0 < pre[b - 1].0);
                }
            } else if a == i {
                assert(post[b] == pre[b - 1]);
                if b - 1 > i {
                    assert(pre[i as int].0 < pre[b - 1].0);
                }
            } else {
                assert(post[a] == pre[a - 1] && post[b] == pre[b - 1]);
            }
        }
        assert forall|y: FabricId| post.contains(y) <==> (pre.contains(y) || y == x) by {
            if post.contains(y) {
                let j = choose|j: int| 0 <= j < post.len() && post[j] == y;
                if j < i {
                    assert(pre[j] == y);
                } else if j > i {
                    assert(pre[j - 1] == y);
                }
            }
            if pre.contains(y) {
                let j = choose|j: int| 0 <= j < pre.len() && pre[j] == y;
                if j < i {
                    assert(post[j] == y);
                } else {
                    assert(post[j + 1] == y);
                }
            }
            if y == x {
                assert(post[i as int] == y);
            }
        }
    }
}

/// Whether position `j` lies in row `h`: from the row's offset up to the
/// next row's offset (or `total` for the last row).
pub open spec fn in_row(rp: Seq<usize>, total: int, h: int, j: int) -> bool {
    rp[h] <= j && j < (if h + 1 < rp.len() {
        rp[h + 1] as int
    } else {
        total
    })
}

impl CsrGraph {
    /// Edges stored in CSR order are sorted by source.
    proof fn lemma_csr_sorted(&self)
        requires
            self.csr_wf(),
        ensures
            forall|i: int, j: int|
                0 <= i < j < self.edges@.len() ==> (#[trigger] self.edges@[i]).from_id.0 <= (
                #[trigger] self.edges@[j]).from_id.0,
    {
        let k = self.sorted_from_ids@;
        let rp = self.row_ptr@;
        let e = self.edges@;
        assert forall|i: int, j: int| 0 <= i < j < e.len() implies (#[trigger] e[i]).from_id.0 <= (
        #[trigger] e[j]).from_id.0 by {
            let gi = lemma_row_of(rp, k.len() as int, i);
            let gj = lemma_row_of(rp, k.len() as int, j);
            assert(e[i].from_id == k[gi]);
            assert(e[j].from_id == k[gj]);
            if gi > gj {
                assert(rp[gj + 1] <= rp[gi]);
            }
        }
    }

    /// Brings the CSR arrays up to date: edges are regrouped by source in
    /// increasing order of source, keeping their relative order within each
    /// source.
    pub fn refresh(&mut self)
        requires
            old(self).wf(),
        ensures
            final(self).wf(),
            !final(self).is_dirty(),
            final(self).edges_view().len() == old(self).edges_view().len(),
            forall|n: FabricId|
                #[trigger] from_edges(final(self).edges_view(), n) == from_edges(
                    old(self).edges_view(),
                    n,
                ),
            edges_sorted(final(self).edges_view()),
            final(self).node_view() == old(self).node_view(),
    {
        self.ensure_csr();
    }

    fn ensure_csr(&mut self)
        requires
            old(self).wf(),
        ensures
            final(self).wf(),
            !final(self).dirty,
            final(self).edges@.len() == old(self).edges@.len(),
            forall|n: FabricId| #[trigger] from_edges(final(self).edges@, n) == from_edges(old(self).edges@, n),
            forall|i: int, j: int|
                0 <= i < j < final(self).edges@.len() ==> (#[trigger] final(self).edges@[i]).from_id.0
                    <= (#[trigger] final(self).edges@[j]).from_id.0,
            final(self).nodes@ == old(self).nodes@,
    {
        if !self.dirty {
            proof {
                self.lemma_csr_sorted();
            }
            return;
        }
        let ghost s = self.edges@;
        let mut keys: Vec<FabricId> = Vec::new();
        let mut i: usize = 0;
        while i < self.edges.len()
            invariant
                i <= self.edges.len(),
                self.edges@ == s,
                ids_increasing(keys@),
                forall|j: int| 0 <= j < i ==> keys@.contains(#[trigger] s[j].from_id),
            decreases self.edges.len() - i,
        {
            let ghost before = keys@;
            insert_key(&mut keys, self.edges[i].from_id);
            proof {
                assert forall|j: int| 0 <= j < i + 1 implies keys@.contains(#[trigger] s[j].from_id) by {
                    if j < i {
                        assert(before.contains(s[j].from_id));
                    }
                }
            }
            i = i + 1;
        }
        let ghost ks = keys@;
        assert(ks.no_duplicates()) by {
            assert forall|a: int, b: int| 0 <= a < ks.len() && 0 <= b < ks.len() && a != b implies ks[a]
                != ks[b] by {
                if a < b {
                    assert(ks[a].0 < ks[b].0);
                } else {
                    assert(ks[b].0 < ks[a].0);
                }
            }
        }
        let mut new_edges: Vec<GraphEdgeRef> = Vec::new();
        let mut row_ptr: Vec<usize> = Vec::new();
        let mut col_idx: Vec<FabricId> = Vec::new();
        let mut edge_types: Vec<String> = Vec::new();
        let mut edge_props: Vec<StringMap> = Vec::new();
        let mut g: usize = 0;
        while g < keys.len()
            invariant
                g <= keys.len(),
                keys@ == ks,
                self.edges@ == s,
                ids_increasing(ks),
                ks.no_duplicates(),
                row_ptr@.len() == g,
                new_edges@ == group_concat(s, ks.subrange(0, g as int)),
                new_edges@.len() <= s.len(),
                col_idx@.len() == new_edges@.len(),
                edge_types@.len() == new_edges@.len(),
                edge_props@.len() == new_edges@.len(),
                forall|j: int|
                    0 <= j < new_edges@.len() ==> col_idx@[j] == (#[trigger] new_edges@[j]).to_id
                        && edge_types@[j]@ == new_edges@[j].edge_type@
                        && edge_props@[j]@ == pairs_map(json_text_pairs(new_edges@[j].properties)),
                row_ptr@.len() > 0 ==> row_ptr@[0] == 0,
                forall|a: int, b: int| 0 <= a <= b < row_ptr@.len() ==> row_ptr@[a] <= row_ptr@[b],
                forall|a: int| 0 <= a < row_ptr@.len() ==> row_ptr@[a] <= new_edges@.len(),
                forall|h: int, j: int|
                    #![trigger ks[h], new_edges@[j]]
                    0 <= h < g && in_row(row_ptr@, new_edges@.len() as int, h, j)
                        ==> new_edges@[j].from_id == ks[h],
            decreases keys.len() - g,
        {
            let key = keys[g];
            let ghost base = new_edges@;
            row_ptr.push(new_edges.len());
            let mut j: usize = 0;
            proof {
                lemma_from_edges_leave(s, key);
                let k1 = ks.subrange(0, g + 1);
                assert(k1.no_duplicates()) by {
                    assert forall|a: int, b: int| 0 <= a < k1.len() && 0 <= b < k1.len() && a != b implies k1[a] != k1[b] by {
                        assert(k1[a] == ks[a] && k1[b] == ks[b]);
                    }
                }
                lemma_group_concat_len(s, k1);
                assert(k1.drop_last() =~= ks.subrange(0, g as int));
                assert(k1.last() == key);
            }
            while j < self.edges.len()
                invariant
                    g < keys.len(),
                    key == ks[g as int],
                    keys@ == ks,
                    self.edges@ == s,
                    j <= s.len(),
                    base == group_concat(s, ks.subrange(0, g as int)),
                    base.len() + from_edges(s, key).len() <= s.len(),
                    new_edges@ == base + from_edges(s.subrange(0, j as int), key),
                    row_ptr@.len() == g + 1,
                    row_ptr@[g as int] == base.len(),
                    col_idx@.len() == new_edges@.len(),
                    edge_types@.len() == new_edges@.len(),
                    edge_props@.len() == new_edges@.len(),
                    forall|x: int|
                        0 <= x < new_edges@.len() ==> col_idx@[x] == (#[trigger] new_edges@[x]).to_id
                            && edge_types@[x]@ == new_edges@[x].edge_type@
                            && edge_props@[x]@ == pairs_map(json_text_pairs(new_edges@[x].properties)),
                    row_ptr@[0] == 0,
                    forall|a: int, b: int| 0 <= a <= b < row_ptr@.len() ==> row_ptr@[a] <= row_ptr@[b],
                    forall|a: int| 0 <= a < row_ptr@.len() ==> row_ptr@[a] <= new_edges@.len(),
                    forall|h: int, x: int|
                        #![trigger ks[h], new_edges@[x]]
                        0 <= h <= g && in_row(row_ptr@, new_edges@.len() as int, h, x)
                            ==> new_edges@[x].from_id == ks[h],
                decreases s.len() - j,
            {
                proof {
                    assert(s.subrange(0, j + 1).drop_last() =~= s.subrange(0, j as int));
                    lemma_from_edges_leave(s.subrange(0, j + 1), key);
                    lemma_from_edges_prefix_len(s, key, j as int + 1);
                }
                if self.edges[j].from_id.0 == key.0 {
                    let ghost pre = new_edges@;
                    new_edges.push(self.edges[j].clone());
                    col_idx.push(self.edges[j].to_id);
                    edge_types.push(self.edges[j].edge_type.clone());
                    edge_props.push(props_text(&self.edges[j].properties));
                    proof {
                        assert(new_edges@ =~= base + from_edges(s.subrange(0, j + 1), key));
                        assert forall|h: int, x: int|
                            #![trigger ks[h], new_edges@[x]]
                            0 <= h <= g && in_row(row_ptr@, new_edges@.len() as int, h, x)
                                implies new_edges@[x].from_id == ks[h] by {
                            if x < pre.len() {
                                assert(new_edges@[x] == pre[x]);
                                if h < g {
                                    assert(in_row(row_ptr@, pre.len() as int, h, x));
                                } else {
                                    assert(in_row(row_ptr@, pre.len() as int, h, x));
                                }
                            } else {
                                if h < g {
                                    assert(row_ptr@[h + 1] <= row_ptr@[g as int]);
                                    assert(row_ptr@[g as int] <= pre.len());
                                }
                                assert(h == g);
                            }
                        }
                    }
                } else {
                    proof {
                        assert(new_edges@ =~= base + from_edges(s.subrange(0, j + 1), key));
                    }
                }
                j = j + 1;
            }
            proof {
                assert(s.subrange(0, s.len() as int) =~= s);
                assert(ks.subrange(0, g + 1).drop_last() =~= ks.subrange(0, g as int));
                assert(ks.subrange(0, g + 1).last() == key);
                assert(new_edges@ == group_concat(s, ks.subrange(0, g + 1)));
            }
            g = g + 1;
        }
        let total = new_edges.len();
        row_ptr.push(total);
        proof {
            assert(ks.subrange(0, ks.len() as int) =~= ks);
            lemma_group_concat_len(s, ks);
            assert forall|n: FabricId| #[trigger] from_edges(new_edges@, n) == from_edges(s, n) by {
                lemma_group_concat_from(s, ks, n);
                if !ks.contains(n) {
                    assert forall|j: int| 0 <= j < s.len() implies (#[trigger] s[j]).from_id != n by {
                        assert(ks.contains(s[j].from_id));
                    }
                    lemma_no_edges_from(s, n, None);
                }
            }
        }
        self.edges = new_edges;
        self.sorted_from_ids = keys;
        self.row_ptr = row_ptr;
        self.col_idx = col_idx;
        self.edge_types = edge_types;
        self.edge_props = edge_props;
        self.dirty = false;
        proof {
            let rp = self.row_ptr@;
            let e = self.edges@;
            assert forall|h: int, x: int|
                #![trigger ks[h], e[x]]
                0 <= h < ks.len() && rp[h] <= x < rp[h + 1] implies e[x].from_id == ks[h] by {
                assert(in_row(rp.drop_last(), e.len() as int, h, x));
            }
            assert(self.csr_wf());
            self.lemma_csr_sorted();
        }
    }

    /// The targets of the edges leaving `node` with the requested type,
    /// after bringing the CSR arrays up to date.
    pub fn get_neighbors_csr(&mut self, node: FabricId, edge_type: Option<&str>) -> (r: Vec<FabricId>)
        requires
            old(self).wf(),
        ensures
            final(self).wf(),
            r@ == targets(old(self).edges_view(), node, opt_text(edge_type)),
            forall|n: FabricId|
                #[trigger] from_edges(final(self).edges_view(), n) == from_edges(
                    old(self).edges_view(),
                    n,
                ),
    {
        self.ensure_csr();
        let r = self.get_neighbors(node, edge_type);
        proof {
            lemma_targets_from_edges(self.edges@, node, opt_text(edge_type));
            lemma_targets_from_edges(old(self).edges@, node, opt_text(edge_type));
        }
        r
    }
}

/// A prefix has no more edges leaving `n` than the whole list.
proof fn lemma_from_edges_prefix_len(s: Seq<GraphEdgeRef>, n: FabricId, j: int)
    requires
        0 <= j <= s.len(),
    ensures
        from_edges(s.subrange(0, j), n).len() <= from_edges(s, n).len(),
    decreases s.len() - j,
{
    if j < s.len() {
        lemma_from_edges_prefix_len(s, n, j + 1);
        assert(s.subrange(0, j + 1).drop_last() =~= s.subrange(0, j));
    } else {
        assert(s.subrange(0, j) =~= s);
    }
}

/// Rebuilding the CSR arrays changes no node's neighbors: when every node
/// keeps its outgoing edges in order, it keeps its targets of every type.
pub proof fn lemma_refresh_keeps_neighbors(before: Seq<GraphEdgeRef>, after: Seq<GraphEdgeRef>, n: FabricId, et: Option<Seq<char>>)
    requires
        forall|m: FabricId| #[trigger] from_edges(after, m) == from_edges(before, m),
    ensures
        targets(after, n, et) == targets(before, n, et),
{
    lemma_targets_from_edges(after, n, et);
    lemma_targets_from_edges(before, n, et);
    assert(from_edges(after, n) == from_edges(before, n));
}

/// Neighbors by edge type are exact: every target listed for type `t`
/// comes from an edge leaving `n` whose type is exactly `t`, and every edge
/// leaving `n` with type exactly `t` has its target listed. With no type
/// requested, every edge leaving `n` counts.
pub proof fn lemma_neighbors_by_type(s: Seq<GraphEdgeRef>, n: FabricId, et: Option<Seq<char>>)
    ensures
        forall|j: int|
            0 <= j < targets(s, n, et).len() ==> exists|k: int|
                0 <= k < s.len() && s[k].from_id == n && s[k].to_id == #[trigger] targets(s, n, et)[j]
                    && (et matches Some(t) ==> s[k].edge_type@ == t),
        forall|k: int|
            0 <= k < s.len() && s[k].from_id == n && (et matches Some(t) ==> s[k].edge_type@ == t)
                ==> targets(s, n, et).contains(#[trigger] s[k].to_id),
    decreases s.len(),
{
    if s.len() > 0 {
        let pre = s.drop_last();
        lemma_neighbors_by_type(pre, n, et);
        let tp = targets(pre, n, et);
        let tt = targets(s, n, et);
        let last = s.len() - 1;
        assert(s.last() == s[last]);
        let hit = s.last().from_id == n && type_ok(s.last(), et);
        assert forall|j: int| 0 <= j < tt.len() implies exists|k: int|
            0 <= k < s.len() && s[k].from_id == n && s[k].to_id == #[trigger] tt[j] && (et matches Some(t)
                ==> s[k].edge_type@ == t) by {
            if hit && j == tp.len() {
                assert(tt[j] == s[last].to_id);
            } else {
                assert(tt[j] == tp[j]);
                let k = choose|k: int|
                    0 <= k < pre.len() && pre[k].from_id == n && pre[k].to_id == tp[j] && (et matches Some(t)
                        ==> pre[k].edge_type@ == t);
                assert(s[k] == pre[k]);
            }
        }
        assert forall|k: int|
            0 <= k < s.len() && s[k].from_id == n && (et matches Some(t) ==> s[k].edge_type@ == t)
                implies tt.contains(#[trigger] s[k].to_id) by {
            if k == last {
                assert(hit);
                assert(tt[tp.len() as int] == s[k].to_id);
            } else {
                assert(s[k] == pre[k]);
                assert(tp.contains(pre[k].to_id));
                let j = choose|j: int| 0 <= j < tp.len() && tp[j] == pre[k].to_id;
                assert(tt[j] == tp[j]);
            }
        }
    }
}

} // verus!
