//! Shortest-path search: a breadth-first exploration that records, for every
//! node it discovers, which tree entry discovered it, and reconstructs the
//! path by walking those parent links back to the root.

use vstd::prelude::*;

use crate::graph::Edge;
use crate::graph::Graph;
use crate::graph::count_false;
use crate::graph::edge_in;
use crate::graph::edges_wf;
use crate::graph::lemma_count_false_update;
use crate::graph::lemma_successors_sound_complete;
use crate::graph::occurs_in;
use crate::graph::successors;

verus! {

/// Consecutive entries of `p` are all stored edges.
pub open spec fn is_path(edges: Seq<Edge>, p: Seq<usize>) -> bool {
    forall|k: int|
        0 <= k < p.len() - 1 ==> edge_in(edges, (#[trigger] p[k]) as int, p[k + 1] as int)
}

/// Some directed path leads from `a` to `b` (a path of a single node
/// connects every index to itself).
pub open spec fn has_path(edges: Seq<Edge>, a: usize, b: usize) -> bool {
    exists|p: Seq<usize>|
        #[trigger] is_path(edges, p) && p.len() >= 1 && p[0] == a && p.last() == b
}

/// A sequence read back to front.
spec fn rev_of<T>(s: Seq<T>) -> Seq<T> {
    Seq::new(s.len(), |i: int| s[s.len() - 1 - i])
}

/// Parent links of the exploration tree point at strictly earlier entries,
/// so walking them terminates at the root.
spec fn tree_parent_wf(tn: Seq<usize>, tp: Seq<usize>) -> bool {
    forall|k: int| 1 <= k < tp.len() ==> (#[trigger] tp[k]) < k
}

/// The node indices on the tree branch from the root down to entry `t`.
spec fn chain(tn: Seq<usize>, tp: Seq<usize>, t: int) -> Seq<usize>
    decreases t,
        when 0 <= t < tn.len() && tp.len() == tn.len() && tree_parent_wf(tn, tp)
{
    if t == 0 {
        seq![tn[0]]
    } else {
        chain(tn, tp, tp[t] as int).push(tn[t])
    }
}

/// A branch of a well-formed exploration tree is a path of the explored
/// graph from the root's node to the entry's node.
proof fn lemma_chain_props(tn: Seq<usize>, tp: Seq<usize>, edges: Seq<Edge>, t: int)
    requires
        0 <= t < tn.len(),
        tp.len() == tn.len(),
        tree_parent_wf(tn, tp),
        forall|k: int|
            1 <= k < tn.len() ==> edge_in(
                edges,
                tn[(#[trigger] tp[k]) as int] as int,
                tn[k] as int,
            ),
    ensures
        chain(tn, tp, t).len() >= 1,
        chain(tn, tp, t)[0] == tn[0],
        chain(tn, tp, t).last() == tn[t],
        is_path(edges, chain(tn, tp, t)),
    decreases t,
{
    if t > 0 {
        lemma_chain_props(tn, tp, edges, tp[t] as int);
        let c0 = chain(tn, tp, tp[t] as int);
        let c = chain(tn, tp, t);
        assert(c == c0.push(tn[t]));
        assert(edge_in(edges, tn[tp[t] as int] as int, tn[t] as int));
        assert forall|k: int| 0 <= k < c.len() - 1 implies #[trigger] edge_in(
            edges,
            c[k] as int,
            c[k + 1] as int,
        ) by {
            if k < c0.len() - 1 {
                assert(c[k] == c0[k]);
                assert(c[k + 1] == c0[k + 1]);
                assert(edge_in(edges, c0[k] as int, c0[k + 1] as int));
            } else {
                assert(k == c0.len() - 1);
                assert(c[k] == c0.last());
                assert(c[k + 1] == tn[t]);
            }
        }
    }
}

/// When a visited set is closed under the stored edges, no path can lead
/// from a visited node to an unvisited one.
proof fn lemma_closed_no_escape(edges: Seq<Edge>, vis: Seq<bool>, p: Seq<usize>)
    requires
        edges_wf(edges, vis.len() as int),
        forall|j: int|
            0 <= j < edges.len() && vis[(#[trigger] edges[j]).from as int] ==> vis[edges[j].to
                as int],
        is_path(edges, p),
        p.len() >= 1,
        p[0] < vis.len(),
        vis[p[0] as int],
    ensures
        p.last() < vis.len(),
        vis[p.last() as int],
    decreases p.len(),
{
    if p.len() > 1 {
        assert(edge_in(edges, p[0] as int, p[1] as int));
        let j = choose|j: int|
            0 <= j < edges.len() && (#[trigger] edges[j]).from == p[0] as int && edges[j].to == p[1]
                as int;
        assert(vis[p[1] as int]);
        let q = p.drop_first();
        assert forall|k: int| 0 <= k < q.len() - 1 implies #[trigger] edge_in(
            edges,
            q[k] as int,
            q[k + 1] as int,
        ) by {
            assert(q[k] == p[k + 1]);
            assert(q[k + 1] == p[k + 2]);
            assert(edge_in(edges, p[k + 1] as int, p[k + 2] as int));
        }
        lemma_closed_no_escape(edges, vis, q);
        assert(q.last() == p.last());
    }
}

impl Graph {
    /// A shortest directed path (by edge count) from `start` to `end`: the
    /// sequence of node indices walked, beginning with `start` and ending
    /// with `end`, every consecutive pair a stored edge; `None` exactly
    /// when no directed path exists. Neighbours are explored in edge
    /// insertion order, so among equally short paths the one over the
    /// earliest-inserted edges is returned; for `start == end` the path is
    /// the single node itself.
    #[verifier::loop_isolation(false)]
    pub fn shortest_path(&self, start: usize, end: usize) -> (r: Option<Vec<usize>>)
        requires
            self.wf(),
        ensures
            match r {
                Some(p) => p@.len() >= 1 && p@[0] == start && p@.last() == end && is_path(
                    self.edges@,
                    p@,
                ),
                None => true,
            },
            r is Some <==> has_path(self.edges@, start, end),
    {
        let n = self.nodes.len();
        if start == end {
            let mut p: Vec<usize> = Vec::new();
            p.push(start);
            proof {
                assert(is_path(self.edges@, p@));
                assert(has_path(self.edges@, start, end));
            }
            return Some(p);
        }
        if start >= n {
            proof {
                if has_path(self.edges@, start, end) {
                    let p = choose|p: Seq<usize>|
                        #[trigger] is_path(self.edges@, p) && p.len() >= 1 && p[0] == start
                            && p.last() == end;
                    if p.len() == 1 {
                        assert(p[0] == p.last());
                    } else {
                        assert(edge_in(self.edges@, p[0] as int, p[1] as int));
                        let j = choose|j: int|
                            0 <= j < self.edges@.len() && (#[trigger] self.edges@[j]).from == p[0]
                                as int && self.edges@[j].to == p[1] as int;
                        assert(self.edges@[j].from < n);
                    }
                    assert(false);
                }
            }
            return None;
        }

        let mut visited: Vec<bool> = Vec::new();
        let mut i: usize = 0;
        while i < n
            invariant
                i <= n,
                visited@.len() == i,
                forall|j: int| 0 <= j < i ==> !(#[trigger] visited@[j]),
            decreases n - i,
        {
            visited.push(false);
            i = i + 1;
        }
        visited.set(start, true);

        let mut tree_node: Vec<usize> = Vec::new();
        let mut tree_parent: Vec<usize> = Vec::new();
        tree_node.push(start);
        tree_parent.push(0);
        let mut cur: usize = 0;

        proof {
            assert forall|j: int| 0 <= j < n && visited@[j] implies occurs_in(
                tree_node@,
                j as usize,
            ) by {
                assert(j == start);
                assert(tree_node@[0] == j as usize);
            }
        }

        while cur < tree_node.len()
            invariant
                visited@.len() == n,
                tree_parent@.len() == tree_node@.len(),
                1 <= tree_node@.len(),
                cur <= tree_node@.len(),
                tree_node@[0] == start,
                forall|k: int| 0 <= k < tree_node@.len() ==> (#[trigger] tree_node@[k]) < n,
                tree_parent_wf(tree_node@, tree_parent@),
                forall|k: int|
                    1 <= k < tree_node@.len() ==> edge_in(
                        self.edges@,
                        tree_node@[(#[trigger] tree_parent@[k]) as int] as int,
                        tree_node@[k] as int,
                    ),
                forall|k: int|
                    0 <= k < tree_node@.len() ==> visited@[(#[trigger] tree_node@[k]) as int],
                forall|j: int| 0 <= j < n && visited@[j] ==> occurs_in(tree_node@, j as usize),
                end < n ==> !visited@[end as int],
                forall|k: int, j: int|
                    0 <= k < cur && 0 <= j < self.edges@.len() && (#[trigger] self.edges@[j]).from
                        == (#[trigger] tree_node@[k]) ==> visited@[self.edges@[j].to as int],
            decreases count_false(visited@), tree_node@.len() - cur,
        {
            let ghost count0 = count_false(visited@);
            let ghost len0 = tree_node@.len();
            let u = tree_node[cur];
            let nbrs = self.reachable_nodes_from(u);
            proof {
                lemma_successors_sound_complete(self.edges@, u as int);
            }
            let m = nbrs.len();
            let mut ii: usize = 0;
            while ii < m
                invariant
                    ii <= m,
                    visited@.len() == n,
                    tree_parent@.len() == tree_node@.len(),
                    cur < tree_node@.len(),
                    tree_node@[cur as int] == u,
                    tree_node@[0] == start,
                    forall|k: int| 0 <= k < tree_node@.len() ==> (#[trigger] tree_node@[k]) < n,
                    tree_parent_wf(tree_node@, tree_parent@),
                    forall|k: int|
                        1 <= k < tree_node@.len() ==> edge_in(
                            self.edges@,
                            tree_node@[(#[trigger] tree_parent@[k]) as int] as int,
                            tree_node@[k] as int,
                        ),
                    forall|k: int|
                        0 <= k < tree_node@.len() ==> visited@[(#[trigger] tree_node@[k]) as int],
                    forall|j: int| 0 <= j < n && visited@[j] ==> occurs_in(tree_node@, j as usize),
                    end < n ==> !visited@[end as int],
                    forall|k: int, j: int|
                        0 <= k < cur && 0 <= j < self.edges@.len() && (
                        #[trigger] self.edges@[j]).from == (#[trigger] tree_node@[k])
                            ==> visited@[self.edges@[j].to as int],
                    forall|jj: int| 0 <= jj < ii ==> visited@[(#[trigger] nbrs@[jj]) as int],
                    count_false(visited@) == count0 - (tree_node@.len() - len0),
                    len0 <= tree_node@.len(),
                decreases m - ii,
            {
                let v = nbrs[ii];
                proof {
                    assert(edge_in(self.edges@, u as int, v as int));
                    let j = choose|j: int|
                        0 <= j < self.edges@.len() && (#[trigger] self.edges@[j]).from == u as int
                            && self.edges@[j].to == v as int;
                    assert(v < n);
                }
                if !visited[v] {
                    if v == end {
                        let ghost tn = tree_node@;
                        let ghost tp = tree_parent@;
                        proof {
                            lemma_chain_props(tn, tp, self.edges@, cur as int);
                        }
                        let mut rev: Vec<usize> = Vec::new();
                        rev.push(end);
                        rev.push(u);
                        let mut t: usize = cur;
                        proof {
                            assert(chain(tn, tp, cur as int) =~= chain(
                                tn,
                                tp,
                                cur as int,
                            ).drop_last().push(u));
                            assert(chain(tn, tp, cur as int).push(end) =~= chain(
                                tn,
                                tp,
                                t as int,
                            ).drop_last() + rev_of(rev@));
                        }
                        while t != 0
                            invariant
                                t < tn.len(),
                                tn == tree_node@,
                                tp == tree_parent@,
                                chain(tn, tp, cur as int).push(end) == chain(
                                    tn,
                                    tp,
                                    t as int,
                                ).drop_last() + rev_of(rev@),
                            decreases t,
                        {
                            let t2 = tree_parent[t];
                            proof {
                                assert(tp[t as int] < t);
                            }
                            let w = tree_node[t2];
                            rev.push(w);
                            proof {
                                lemma_chain_props(tn, tp, self.edges@, t2 as int);
                                assert(chain(tn, tp, t as int) == chain(tn, tp, t2 as int).push(
                                    tn[t as int],
                                ));
                                assert(chain(tn, tp, t as int).drop_last() =~= chain(
                                    tn,
                                    tp,
                                    t2 as int,
                                ));
                                assert(chain(tn, tp, t2 as int) =~= chain(
                                    tn,
                                    tp,
                                    t2 as int,
                                ).drop_last().push(w));
                                assert(chain(tn, tp, cur as int).push(end) =~= chain(
                                    tn,
                                    tp,
                                    t2 as int,
                                ).drop_last() + rev_of(rev@));
                            }
                            t = t2;
                        }
                        proof {
                            assert(chain(tn, tp, 0).drop_last() =~= Seq::<usize>::empty());
                            assert(chain(tn, tp, cur as int).push(end) =~= rev_of(rev@));
                        }
                        let mut path: Vec<usize> = Vec::new();
                        let mut k: usize = rev.len();
                        while k > 0
                            invariant
                                k <= rev@.len(),
                                path@ =~= rev_of(rev@.skip(k as int)),
                            decreases k,
                        {
                            k = k - 1;
                            let x = rev[k];
                            path.push(x);
                            proof {
                                assert(path@ =~= rev_of(rev@.skip(k as int)));
                            }
                        }
                        proof {
                            assert(rev@.skip(0) =~= rev@);
                            assert(path@ == chain(tn, tp, cur as int).push(end));
                            let c = chain(tn, tp, cur as int);
                            assert(path@[0] == c[0]);
                            assert(path@[0] == start);
                            assert(path@.last() == end);
                            assert(edge_in(self.edges@, u as int, end as int));
                            assert forall|kk: int| 0 <= kk < path@.len() - 1 implies
                                #[trigger] edge_in(
                                self.edges@,
                                path@[kk] as int,
                                path@[kk + 1] as int,
                            ) by {
                                if kk < c.len() - 1 {
                                    assert(path@[kk] == c[kk]);
                                    assert(path@[kk + 1] == c[kk + 1]);
                                    assert(edge_in(self.edges@, c[kk] as int, c[kk + 1] as int));
                                } else {
                                    assert(path@[kk] == c.last());
                                    assert(c.last() == u);
                                    assert(path@[kk + 1] == end);
                                }
                            }
                            assert(is_path(self.edges@, path@));
                            assert(has_path(self.edges@, start, end));
                        }
                        return Some(path);
                    }
                    let ghost tn0 = tree_node@;
                    let ghost vis0 = visited@;
                    visited.set(v, true);
                    tree_node.push(v);
                    tree_parent.push(cur);
                    proof {
                        lemma_count_false_update(vis0, v as int);
                        assert(tree_node@[tree_node@.len() - 1] == v);
                        assert forall|j: int| 0 <= j < n && visited@[j] implies occurs_in(
                            tree_node@,
                            j as usize,
                        ) by {
                            if j == v as int {
                                assert(tree_node@[tree_node@.len() - 1] == j as usize);
                            } else {
                                assert(vis0[j]);
                                let k = choose|k: int|
                                    0 <= k < tn0.len() && tn0[k] == j as usize;
                                assert(tree_node@[k] == j as usize);
                            }
                        }
                    }
                }
                ii = ii + 1;
            }
            proof {
                assert forall|k: int, j: int|
                    0 <= k < cur + 1 && 0 <= j < self.edges@.len() && (
                #[trigger] self.edges@[j]).from == (#[trigger] tree_node@[k]) implies
                    visited@[self.edges@[j].to as int] by {
                    if k == cur {
                        assert(self.edges@[j].from == u as int);
                        assert(occurs_in(successors(self.edges@, u as int), self.edges@[j].to));
                        let kk = choose|kk: int|
                            0 <= kk < successors(self.edges@, u as int).len() && successors(
                                self.edges@,
                                u as int,
                            )[kk] == self.edges@[j].to;
                        assert(nbrs@[kk] == self.edges@[j].to);
                        assert(visited@[nbrs@[kk] as int]);
                    }
                }
            }
            cur = cur + 1;
        }

        proof {
            assert forall|j: int|
                0 <= j < self.edges@.len() && visited@[(#[trigger] self.edges@[j]).from as int]
                implies visited@[self.edges@[j].to as int] by {
                let f = self.edges@[j].from;
                assert(f < n);
                assert(occurs_in(tree_node@, f));
                let k = choose|k: int| 0 <= k < tree_node@.len() && tree_node@[k] == f;
                assert(visited@[self.edges@[j].to as int]);
            }
            if has_path(self.edges@, start, end) {
                let p = choose|p: Seq<usize>|
                    #[trigger] is_path(self.edges@, p) && p.len() >= 1 && p[0] == start && p.last()
                        == end;
                lemma_closed_no_escape(self.edges@, visited@, p);
                assert(end < n);
                assert(false);
            }
        }
        None
    }
}

} // verus!
