//! The graph store: two flat sequences of nodes and edges, both referenced
//! by positional index, with deduplicating insertion and swap-with-last
//! removal that repairs the indices of the node that moved.

use vstd::prelude::*;

use crate::node::Node;
use crate::node::NodeModel;
use crate::node::node_eq;

verus! {

/// A directed edge: an ordered pair of node indices.
#[derive(PartialEq, Eq, Structural, Clone, Copy, Debug)]
pub struct Edge {
    pub from: usize,
    pub to: usize,
}

/// The directed graph. A node's identity is its position in `nodes`, an
/// edge's its position in `edges`; removal reuses indices immediately.
#[derive(Debug)]
pub struct Graph {
    pub nodes: Vec<Node>,
    pub edges: Vec<Edge>,
}

/// Every edge endpoint references a valid node index.
pub open spec fn edges_wf(edges: Seq<Edge>, n_nodes: int) -> bool {
    forall|k: int|
        0 <= k < edges.len() ==> (#[trigger] edges[k]).from < n_nodes && edges[k].to < n_nodes
}

/// Some edge leaves node `i`.
pub open spec fn has_outgoing(edges: Seq<Edge>, i: int) -> bool {
    exists|k: int| 0 <= k < edges.len() && (#[trigger] edges[k]).from == i
}

/// The `to` endpoints of the edges leaving `v`, in edge insertion order.
pub open spec fn successors(edges: Seq<Edge>, v: int) -> Seq<usize>
    decreases edges.len(),
{
    if edges.len() == 0 {
        Seq::empty()
    } else {
        let rest = successors(edges.drop_last(), v);
        if edges.last().from == v {
            rest.push(edges.last().to)
        } else {
            rest
        }
    }
}

/// The `from` endpoints of the edges entering `v`, in edge insertion order.
pub open spec fn predecessors(edges: Seq<Edge>, v: int) -> Seq<usize>
    decreases edges.len(),
{
    if edges.len() == 0 {
        Seq::empty()
    } else {
        let rest = predecessors(edges.drop_last(), v);
        if edges.last().to == v {
            rest.push(edges.last().from)
        } else {
            rest
        }
    }
}

/// A directed edge from `a` to `b` is stored.
pub open spec fn edge_in(edges: Seq<Edge>, a: int, b: int) -> bool {
    exists|j: int| 0 <= j < edges.len() && (#[trigger] edges[j]).from == a && edges[j].to == b
}

/// Whether `v` occurs in `s`.
pub open spec fn occurs_in<T>(s: Seq<T>, v: T) -> bool {
    exists|j: int| 0 <= j < s.len() && s[j] == v
}

/// How a deduplicating insert relates the sequence before (`s0`) and after
/// (`s1`) the call, and the returned index `r`: the value stands at `r`,
/// nothing equal to it stands earlier, and the sequence grew by the value
/// exactly when the value was absent.
pub open spec fn dedup_insert_rel<T>(s0: Seq<T>, v: T, s1: Seq<T>, r: int) -> bool {
    &&& 0 <= r < s1.len()
    &&& s1[r] == v
    &&& (forall|j: int| 0 <= j < r ==> s1[j] != v)
    &&& if occurs_in(s0, v) {
        s1 == s0
    } else {
        s1 == s0.push(v) && r == s0.len()
    }
}

/// Law: inserting a structurally-equal value twice never grows the
/// sequence and returns the index the first insertion returned.
pub proof fn lemma_dedup_insert_idempotent<T>(
    s0: Seq<T>,
    v: T,
    s1: Seq<T>,
    r1: int,
    s2: Seq<T>,
    r2: int,
)
    requires
        dedup_insert_rel(s0, v, s1, r1),
        dedup_insert_rel(s1, v, s2, r2),
    ensures
        s2 == s1,
        r2 == r1,
{
    assert(occurs_in(s1, v));
}

/// The home of index `i` after the node at `last` moved into the slot
/// `removed` freed.
pub open spec fn remap_idx(i: usize, removed: usize, last: usize) -> usize {
    if i == last {
        removed
    } else {
        i
    }
}

/// An edge after a removal repaired the index of the moved last node.
pub open spec fn remap_edge(e: Edge, removed: usize, last: usize) -> Edge {
    Edge { from: remap_idx(e.from, removed, last), to: remap_idx(e.to, removed, last) }
}

/// The edge sequence after removing node `removed`: edges touching it are
/// dropped, the survivors keep their order and have references to `last`
/// (the index the moved node held) rewritten to `removed`.
pub open spec fn edges_after_removal(edges: Seq<Edge>, removed: usize, last: usize) -> Seq<Edge>
    decreases edges.len(),
{
    if edges.len() == 0 {
        Seq::empty()
    } else {
        let rest = edges_after_removal(edges.drop_last(), removed, last);
        let e = edges.last();
        if e.from == removed || e.to == removed {
            rest
        } else {
            rest.push(remap_edge(e, removed, last))
        }
    }
}

/// Law: after a removal the surviving edges reference no out-of-range
/// index, and each of them is a surviving edge of the old graph (one not
/// touching the removed index) with the moved node's index repaired.
pub proof fn lemma_edges_after_removal_wf(edges: Seq<Edge>, removed: usize, last: usize)
    requires
        edges_wf(edges, last + 1),
        removed <= last,
    ensures
        edges_wf(edges_after_removal(edges, removed, last), last as int),
        forall|k: int|
            0 <= k < edges_after_removal(edges, removed, last).len() ==> exists|j: int|
                0 <= j < edges.len() && edges[j].from != removed && edges[j].to != removed
                    && #[trigger] edges_after_removal(edges, removed, last)[k] == remap_edge(
                    edges[j],
                    removed,
                    last,
                ),
    decreases edges.len(),
{
    if edges.len() > 0 {
        let prefix = edges.drop_last();
        assert(edges_wf(prefix, last + 1));
        lemma_edges_after_removal_wf(prefix, removed, last);
        let e = edges.last();
        let result = edges_after_removal(edges, removed, last);
        let sub = edges_after_removal(prefix, removed, last);
        if e.from == removed || e.to == removed {
            assert(result == sub);
            assert forall|k: int| 0 <= k < result.len() implies exists|j: int|
                0 <= j < edges.len() && edges[j].from != removed && edges[j].to != removed
                    && #[trigger] result[k] == remap_edge(edges[j], removed, last) by {
                let j = choose|j: int|
                    0 <= j < prefix.len() && prefix[j].from != removed && prefix[j].to != removed
                        && sub[k] == remap_edge(prefix[j], removed, last);
                assert(edges[j] == prefix[j]);
            }
        } else {
            assert(result == sub.push(remap_edge(e, removed, last)));
            assert forall|k: int| 0 <= k < result.len() implies exists|j: int|
                0 <= j < edges.len() && edges[j].from != removed && edges[j].to != removed
                    && #[trigger] result[k] == remap_edge(edges[j], removed, last) by {
                if k < sub.len() {
                    let j = choose|j: int|
                        0 <= j < prefix.len() && prefix[j].from != removed && prefix[j].to
                            != removed && sub[k] == remap_edge(prefix[j], removed, last);
                    assert(edges[j] == prefix[j]);
                } else {
                    assert(result[k] == remap_edge(edges[edges.len() - 1], removed, last));
                }
            }
        }
    }
}

/// Everything `successors` lists is a real edge, and every edge leaving
/// `v` is listed.
pub proof fn lemma_successors_sound_complete(edges: Seq<Edge>, v: int)
    ensures
        forall|k: int|
            0 <= k < successors(edges, v).len() ==> edge_in(
                edges,
                v,
                (#[trigger] successors(edges, v)[k]) as int,
            ),
        forall|j: int|
            0 <= j < edges.len() && (#[trigger] edges[j]).from == v ==> occurs_in(
                successors(edges, v),
                edges[j].to,
            ),
    decreases edges.len(),
{
    if edges.len() > 0 {
        let prefix = edges.drop_last();
        lemma_successors_sound_complete(prefix, v);
        let e = edges.last();
        let sub = successors(prefix, v);
        assert forall|k: int| 0 <= k < successors(edges, v).len() implies edge_in(
            edges,
            v,
            (#[trigger] successors(edges, v)[k]) as int,
        ) by {
            let result = successors(edges, v);
            if e.from == v && k == result.len() - 1 {
                assert(result == sub.push(e.to));
                assert(edges[edges.len() - 1].from == v && edges[edges.len() - 1].to == result[k]);
            } else {
                if e.from == v {
                    assert(result == sub.push(e.to));
                } else {
                    assert(result == sub);
                }
                assert(0 <= k < successors(prefix, v).len());
                assert(edge_in(prefix, v, successors(prefix, v)[k] as int));
                let j = choose|j: int|
                    0 <= j < prefix.len() && (#[trigger] prefix[j]).from == v && prefix[j].to
                        == sub[k];
                assert(edges[j] == prefix[j]);
                assert(edges[j].from == v && edges[j].to == result[k]);
            }
        }
        assert forall|j: int|
            0 <= j < edges.len() && (#[trigger] edges[j]).from == v implies occurs_in(
            successors(edges, v),
            edges[j].to,
        ) by {
            let result = successors(edges, v);
            if j < prefix.len() {
                assert(prefix[j] == edges[j]);
                assert(occurs_in(sub, prefix[j].to));
                let k = choose|k: int| 0 <= k < sub.len() && sub[k] == edges[j].to;
                if e.from == v {
                    assert(result == sub.push(e.to));
                } else {
                    assert(result == sub);
                }
                assert(result[k] == edges[j].to);
            } else {
                assert(e.from == v);
                assert(result == sub.push(e.to));
                assert(result[result.len() - 1] == edges[j].to);
            }
        }
    }
}


/// How many entries of a flag sequence are still unset; the measure that
/// shrinks whenever a traversal visits a new node.
pub open spec fn count_false(s: Seq<bool>) -> nat
    decreases s.len(),
{
    if s.len() == 0 {
        0
    } else {
        (if s.last() {
            0nat
        } else {
            1nat
        }) + count_false(s.drop_last())
    }
}

/// Setting an unset flag lowers `count_false` by exactly one.
pub proof fn lemma_count_false_update(s: Seq<bool>, i: int)
    requires
        0 <= i < s.len(),
        !s[i],
    ensures
        count_false(s.update(i, true)) == count_false(s) - 1,
    decreases s.len(),
{
    if i == s.len() - 1 {
        assert(s.update(i, true).drop_last() =~= s.drop_last());
    } else {
        assert(s.update(i, true).drop_last() =~= s.drop_last().update(i, true));
        lemma_count_false_update(s.drop_last(), i);
    }
}

impl Graph {
    /// The node payloads as mathematical values, in store order.
    pub open spec fn nodes_model(&self) -> Seq<NodeModel> {
        self.nodes@.map_values(|n: Node| n@)
    }

    /// Well-formedness: no edge references an out-of-range node index.
    pub open spec fn wf(&self) -> bool {
        edges_wf(self.edges@, self.nodes@.len() as int)
    }

    /// An empty graph.
    pub fn new() -> (g: Graph)
        ensures
            g.nodes@.len() == 0,
            g.edges@.len() == 0,
            g.wf(),
    {
        Graph { nodes: Vec::new(), edges: Vec::new() }
    }

    /// Insert a node, deduplicating structurally: if an equal node is
    /// already stored its index is returned and nothing changes, else the
    /// node is appended and its new index returned.
    #[verifier::loop_isolation(false)]
    pub fn add_node(&mut self, new_node: Node) -> (idx: usize)
        requires
            old(self).wf(),
        ensures
            final(self).wf(),
            final(self).edges@ == old(self).edges@,
            dedup_insert_rel(
                old(self).nodes_model(),
                new_node@,
                final(self).nodes_model(),
                idx as int,
            ),
    {
        let n = self.nodes.len();
        for i in 0..n
            invariant
                n == self.nodes@.len(),
                forall|j: int| 0 <= j < i ==> self.nodes_model()[j] != new_node@,
        {
            if node_eq(&self.nodes[i], &new_node) {
                proof {
                    assert(self.nodes_model()[i as int] == new_node@);
                    assert(occurs_in(self.nodes_model(), new_node@));
                }
                return i;
            }
        }
        proof {
            assert(!occurs_in(self.nodes_model(), new_node@));
        }
        self.nodes.push(new_node);
        proof {
            assert(self.nodes_model() =~= old(self).nodes_model().push(new_node@));
        }
        self.nodes.len() - 1
    }

    /// Insert an edge, deduplicating by value, with the same contract as
    /// `add_node`. Both endpoints must reference stored nodes, which keeps
    /// the graph free of dangling edges.
    #[verifier::loop_isolation(false)]
    pub fn add_edge(&mut self, new_edge: Edge) -> (idx: usize)
        requires
            old(self).wf(),
            new_edge.from < old(self).nodes@.len(),
            new_edge.to < old(self).nodes@.len(),
        ensures
            final(self).wf(),
            final(self).nodes@ == old(self).nodes@,
            dedup_insert_rel(old(self).edges@, new_edge, final(self).edges@, idx as int),
    {
        let n = self.edges.len();
        for i in 0..n
            invariant
                n == self.edges@.len(),
                forall|j: int| 0 <= j < i ==> self.edges@[j] != new_edge,
        {
            if self.edges[i] == new_edge {
                proof {
                    assert(occurs_in(self.edges@, new_edge));
                }
                return i;
            }
        }
        proof {
            assert(!occurs_in(self.edges@, new_edge));
        }
        self.edges.push(new_edge);
        self.edges.len() - 1
    }

    /// The index of the first node structurally equal to `node`, if any.
    #[verifier::loop_isolation(false)]
    pub fn find_node_idx(&self, node: Node) -> (r: Option<usize>)
        ensures
            match r {
                Some(i) => i < self.nodes@.len() && self.nodes_model()[i as int] == node@
                    && forall|j: int| 0 <= j < i ==> self.nodes_model()[j] != node@,
                None => forall|j: int|
                    0 <= j < self.nodes@.len() ==> self.nodes_model()[j] != node@,
            },
    {
        let n = self.nodes.len();
        for i in 0..n
            invariant
                n == self.nodes@.len(),
                forall|j: int| 0 <= j < i ==> self.nodes_model()[j] != node@,
        {
            if node_eq(&self.nodes[i], &node) {
                return Some(i);
            }
        }
        None
    }

    /// Remove the node at `node_idx` and return it; `None` if the index is
    /// out of range. The last node moves into the freed slot, every edge
    /// touching the removed index is deleted, and surviving edges that
    /// referenced the moved node's old index are rewritten to `node_idx`.
    #[verifier::loop_isolation(false)]
    pub fn remove_node(&mut self, node_idx: usize) -> (r: Option<Node>)
        requires
            old(self).wf(),
        ensures
            final(self).wf(),
            node_idx >= old(self).nodes@.len() ==> r is None && final(self).nodes@ == old(
                self,
            ).nodes@ && final(self).edges@ == old(self).edges@,
            node_idx < old(self).nodes@.len() ==> {
                &&& match r {
                    Some(removed) => removed@ == old(self).nodes_model()[node_idx as int],
                    None => false,
                }
                &&& final(self).nodes@ == old(self).nodes@.update(
                    node_idx as int,
                    old(self).nodes@.last(),
                ).drop_last()
                &&& final(self).edges@ == edges_after_removal(
                    old(self).edges@,
                    node_idx,
                    (old(self).nodes@.len() - 1) as usize,
                )
            },
    {
        if node_idx >= self.nodes.len() {
            return None;
        }
        let last_node_idx = self.nodes.len() - 1;
        let removed_node = self.nodes.swap_remove(node_idx);

        let ghost old_edges = self.edges@;
        let mut kept: Vec<Edge> = Vec::new();
        let m = self.edges.len();
        for i in 0..m
            invariant
                m == self.edges@.len(),
                self.edges@ == old_edges,
                kept@ == edges_after_removal(old_edges.take(i as int), node_idx, last_node_idx),
        {
            let e = self.edges[i];
            proof {
                assert(old_edges.take(i + 1).drop_last() =~= old_edges.take(i as int));
                assert(old_edges.take(i + 1).last() == e);
            }
            if e.from != node_idx && e.to != node_idx {
                let new_from = if e.from == last_node_idx {
                    node_idx
                } else {
                    e.from
                };
                let new_to = if e.to == last_node_idx {
                    node_idx
                } else {
                    e.to
                };
                kept.push(Edge { from: new_from, to: new_to });
            }
        }
        proof {
            assert(old_edges.take(m as int) =~= old_edges);
        }
        self.edges = kept;
        proof {
            lemma_edges_after_removal_wf(old_edges, node_idx, last_node_idx);
        }
        Some(removed_node)
    }

    /// All `to` endpoints of edges leaving `node_idx`, without dedup, in
    /// edge insertion order.
    #[verifier::loop_isolation(false)]
    pub fn reachable_nodes_from(&self, node_idx: usize) -> (r: Vec<usize>)
        ensures
            r@ == successors(self.edges@, node_idx as int),
    {
        let mut out: Vec<usize> = Vec::new();
        let m = self.edges.len();
        for i in 0..m
            invariant
                m == self.edges@.len(),
                out@ == successors(self.edges@.take(i as int), node_idx as int),
        {
            let e = self.edges[i];
            proof {
                assert(self.edges@.take(i + 1).drop_last() =~= self.edges@.take(i as int));
                assert(self.edges@.take(i + 1).last() == e);
            }
            if e.from == node_idx {
                out.push(e.to);
            }
        }
        proof {
            assert(self.edges@.take(m as int) =~= self.edges@);
        }
        out
    }

    /// All `from` endpoints of edges entering `node_idx`, without dedup,
    /// in edge insertion order.
    #[verifier::loop_isolation(false)]
    pub fn nodes_that_can_reach(&self, node_idx: usize) -> (r: Vec<usize>)
        ensures
            r@ == predecessors(self.edges@, node_idx as int),
    {
        let mut out: Vec<usize> = Vec::new();
        let m = self.edges.len();
        for i in 0..m
            invariant
                m == self.edges@.len(),
                out@ == predecessors(self.edges@.take(i as int), node_idx as int),
        {
            let e = self.edges[i];
            proof {
                assert(self.edges@.take(i + 1).drop_last() =~= self.edges@.take(i as int));
                assert(self.edges@.take(i + 1).last() == e);
            }
            if e.to == node_idx {
                out.push(e.from);
            }
        }
        proof {
            assert(self.edges@.take(m as int) =~= self.edges@);
        }
        out
    }

    /// The boundary: every node with no outgoing edge, in ascending index
    /// order; `None` exactly when that set is empty (in particular for the
    /// empty graph).
    #[verifier::loop_isolation(false)]
    pub fn boundary(&self) -> (r: Option<Vec<usize>>)
        ensures
            match r {
                Some(b) => b@.len() > 0 && (forall|k: int|
                    0 <= k < b@.len() ==> b@[k] < self.nodes@.len() && !has_outgoing(
                        self.edges@,
                        b@[k] as int,
                    )) && (forall|k1: int, k2: int|
                    0 <= k1 < k2 < b@.len() ==> b@[k1] < b@[k2]) && (forall|i: int|
                    0 <= i < self.nodes@.len() && !has_outgoing(self.edges@, i) ==> occurs_in(
                        b@,
                        i as usize,
                    )),
                None => forall|i: int|
                    0 <= i < self.nodes@.len() ==> has_outgoing(self.edges@, i),
            },
    {
        let n = self.nodes.len();
        let mut from_flags: Vec<bool> = Vec::new();
        for i in 0..n
            invariant
                from_flags@.len() == i,
                forall|j: int| 0 <= j < i ==> !from_flags@[j],
        {
            from_flags.push(false);
        }
        let m = self.edges.len();
        for i in 0..m
            invariant
                m == self.edges@.len(),
                from_flags@.len() == n,
                forall|j: int|
                    0 <= j < n ==> from_flags@[j] == has_outgoing(self.edges@.take(i as int), j),
        {
            let ghost prev = self.edges@.take(i as int);
            let e = self.edges[i];
            proof {
                assert(self.edges@.take(i + 1).drop_last() =~= prev);
                assert forall|j: int| 0 <= j < n implies (has_outgoing(
                    self.edges@.take(i + 1),
                    j,
                ) == (has_outgoing(prev, j) || e.from == j)) by {
                    let cur = self.edges@.take(i + 1);
                    if has_outgoing(cur, j) {
                        let k = choose|k: int| 0 <= k < cur.len() && cur[k].from == j;
                        if k < i {
                            assert(prev[k].from == j);
                        } else {
                            assert(cur[k] == e);
                        }
                    }
                    if has_outgoing(prev, j) {
                        let k = choose|k: int| 0 <= k < prev.len() && prev[k].from == j;
                        assert(cur[k].from == j);
                    }
                    if e.from == j {
                        assert(cur[i as int].from == j);
                    }
                }
            }
            if e.from < n {
                from_flags.set(e.from, true);
            }
            proof {
                assert forall|j: int| 0 <= j < n implies from_flags@[j] == has_outgoing(
                    self.edges@.take(i + 1),
                    j,
                ) by {
                    assert(has_outgoing(self.edges@.take(i + 1), j) == (has_outgoing(prev, j)
                        || e.from == j));
                }
            }
        }
        proof {
            assert(self.edges@.take(m as int) =~= self.edges@);
        }

        let mut b: Vec<usize> = Vec::new();
        for i in 0..n
            invariant
                from_flags@.len() == n,
                forall|j: int| 0 <= j < n ==> from_flags@[j] == has_outgoing(self.edges@, j),
                forall|k: int|
                    0 <= k < b@.len() ==> b@[k] < i && !has_outgoing(self.edges@, b@[k] as int),
                forall|k1: int, k2: int| 0 <= k1 < k2 < b@.len() ==> b@[k1] < b@[k2],
                forall|j: int|
                    0 <= j < i && !has_outgoing(self.edges@, j) ==> occurs_in(b@, j as usize),
        {
            if !from_flags[i] {
                let ghost old_b = b@;
                b.push(i);
                proof {
                    assert forall|j: int|
                        0 <= j < i + 1 && !has_outgoing(self.edges@, j) implies occurs_in(
                        b@,
                        j as usize,
                    ) by {
                        if j < i {
                            let k = choose|k: int| 0 <= k < old_b.len() && old_b[k] == j as usize;
                            assert(b@[k] == j as usize);
                        } else {
                            assert(b@[b@.len() - 1] == j as usize);
                        }
                    }
                }
            } else {
                proof {
                    assert forall|j: int|
                        0 <= j < i + 1 && !has_outgoing(self.edges@, j) implies occurs_in(
                        b@,
                        j as usize,
                    ) by {
                        if j < i {
                            assert(occurs_in(b@, j as usize));
                        }
                    }
                }
            }
        }
        if b.len() == 0 {
            proof {
                assert forall|i: int| 0 <= i < self.nodes@.len() implies has_outgoing(
                    self.edges@,
                    i,
                ) by {
                    if !has_outgoing(self.edges@, i) {
                        assert(occurs_in(b@, i as usize));
                    }
                }
            }
            None
        } else {
            Some(b)
        }
    }

    /// `boundary` under the name tree users expect: in a tree the boundary
    /// nodes are exactly the leaves.
    pub fn leaves(&self) -> (r: Option<Vec<usize>>)
        ensures
            match r {
                Some(b) => b@.len() > 0 && (forall|k: int|
                    0 <= k < b@.len() ==> b@[k] < self.nodes@.len() && !has_outgoing(
                        self.edges@,
                        b@[k] as int,
                    )) && (forall|k1: int, k2: int|
                    0 <= k1 < k2 < b@.len() ==> b@[k1] < b@[k2]) && (forall|i: int|
                    0 <= i < self.nodes@.len() && !has_outgoing(self.edges@, i) ==> occurs_in(
                        b@,
                        i as usize,
                    )),
                None => forall|i: int|
                    0 <= i < self.nodes@.len() ==> has_outgoing(self.edges@, i),
            },
    {
        self.boundary()
    }
}

} // verus!
