//! Breadth-first distance. The traversal keeps a queue that may hold a node
//! more than once (a node is filtered only against the set of finished
//! nodes), counts every dequeue, and answers the counter plus one the moment
//! the target is enqueued. The returned number is therefore the algorithm's
//! pop counter, not the edge count of a shortest path, and when the target
//! is unreachable the drained counter itself is returned; callers must not
//! read meaning into that value. The counter saturates at `usize::MAX`
//! instead of wrapping.

use vstd::prelude::*;

use std::collections::VecDeque;

use crate::graph::Edge;
use crate::graph::Graph;
use crate::graph::count_false;
use crate::graph::edge_in;
use crate::graph::edges_wf;
use crate::graph::lemma_count_false_update;
use crate::graph::lemma_successors_sound_complete;
use crate::graph::occurs_in;
use crate::graph::successors;

verus! {

/// The counter's step: one more, saturating at the largest value.
pub open spec fn sat_inc(d: usize) -> usize {
    if d == usize::MAX {
        d
    } else {
        (d + 1) as usize
    }
}

/// The entries of `s` not yet marked in `vis`, in order, duplicates kept.
pub open spec fn keep_unvisited(s: Seq<usize>, vis: Seq<bool>) -> Seq<usize>
    decreases s.len(),
{
    if s.len() == 0 {
        Seq::empty()
    } else {
        let rest = keep_unvisited(s.drop_last(), vis);
        if s.last() < vis.len() && !vis[s.last() as int] {
            rest.push(s.last())
        } else {
            rest
        }
    }
}

proof fn lemma_keep_unvisited_push(s: Seq<usize>, x: usize, vis: Seq<bool>)
    ensures
        keep_unvisited(s.push(x), vis) == if x < vis.len() && !vis[x as int] {
            keep_unvisited(s, vis).push(x)
        } else {
            keep_unvisited(s, vis)
        },
{
    assert(s.push(x).drop_last() =~= s);
    assert(s.push(x).last() == x);
}

proof fn lemma_keep_unvisited_elems(s: Seq<usize>, vis: Seq<bool>)
    ensures
        forall|k: int|
            0 <= k < keep_unvisited(s, vis).len() ==> (#[trigger] keep_unvisited(s, vis)[k])
                < vis.len() && !vis[keep_unvisited(s, vis)[k] as int],
    decreases s.len(),
{
    if s.len() > 0 {
        lemma_keep_unvisited_elems(s.drop_last(), vis);
        let rest = keep_unvisited(s.drop_last(), vis);
        let whole = keep_unvisited(s, vis);
        assert forall|k: int| 0 <= k < whole.len() implies (#[trigger] whole[k]) < vis.len()
            && !vis[whole[k] as int] by {
            if k < rest.len() {
                assert(whole[k] == rest[k]);
            } else {
                assert(whole[k] == s.last());
            }
        }
    }
}

/// The position of the first queue entry still unvisited; the queue's
/// length when every entry is visited. Second component of the traversal's
/// termination measure.
pub open spec fn first_unv(q: Seq<usize>, vis: Seq<bool>) -> int
    decreases q.len(),
{
    if q.len() == 0 {
        0
    } else if q[0] < vis.len() && !vis[q[0] as int] {
        0
    } else {
        1 + first_unv(q.drop_first(), vis)
    }
}

proof fn lemma_first_unv_bounds(q: Seq<usize>, vis: Seq<bool>)
    ensures
        0 <= first_unv(q, vis) <= q.len(),
    decreases q.len(),
{
    if q.len() > 0 && !(q[0] < vis.len() && !vis[q[0] as int]) {
        lemma_first_unv_bounds(q.drop_first(), vis);
    }
}

proof fn lemma_first_unv_concat(a: Seq<usize>, b: Seq<usize>, vis: Seq<bool>)
    ensures
        first_unv(a + b, vis) == if first_unv(a, vis) < a.len() {
            first_unv(a, vis)
        } else {
            a.len() + first_unv(b, vis)
        },
    decreases a.len(),
{
    lemma_first_unv_bounds(a, vis);
    if a.len() == 0 {
        assert(a + b =~= b);
    } else {
        assert((a + b).len() > 0);
        assert((a + b)[0] == a[0]);
        assert((a + b).drop_first() =~= a.drop_first() + b);
        lemma_first_unv_concat(a.drop_first(), b, vis);
        lemma_first_unv_bounds(a.drop_first(), vis);
    }
}

/// The states on which the traversal is defined: edges reference valid
/// nodes and every queue entry is a valid node index.
pub open spec fn bfs_state_ok(edges: Seq<Edge>, q: Seq<usize>, vis: Seq<bool>) -> bool {
    &&& edges_wf(edges, vis.len() as int)
    &&& forall|k: int| 0 <= k < q.len() ==> (#[trigger] q[k]) < vis.len()
}

/// One dequeue strictly shrinks the measure: visiting a new head lowers
/// the unvisited count; re-dequeuing a finished head moves the first
/// unvisited entry one position closer to the front.
proof fn lemma_bfs_step_decreases(edges: Seq<Edge>, q: Seq<usize>, vis: Seq<bool>)
    requires
        bfs_state_ok(edges, q, vis),
        q.len() > 0,
    ensures
        ({
            let q2 = q.drop_first() + keep_unvisited(successors(edges, q[0] as int), vis);
            let vis2 = vis.update(q[0] as int, true);
            &&& 0 <= first_unv(q2, vis2)
            &&& count_false(vis2) <= count_false(vis)
            &&& (count_false(vis2) < count_false(vis) || first_unv(q2, vis2) < first_unv(q, vis))
        }),
{
    let h = q[0];
    let pushed = keep_unvisited(successors(edges, h as int), vis);
    let rest = q.drop_first();
    let q2 = rest + pushed;
    let vis2 = vis.update(h as int, true);
    lemma_keep_unvisited_elems(successors(edges, h as int), vis);
    lemma_first_unv_bounds(q2, vis2);
    if !vis[h as int] {
        lemma_count_false_update(vis, h as int);
    } else {
        assert(vis2 =~= vis);
        assert(count_false(vis2) == count_false(vis));
        assert(first_unv(q, vis) == 1 + first_unv(rest, vis));
        lemma_first_unv_concat(rest, pushed, vis);
        lemma_first_unv_bounds(rest, vis);
        if first_unv(rest, vis) < rest.len() {
        } else {
            if pushed.len() > 0 {
                assert(pushed[0] < vis.len() && !vis[pushed[0] as int]);
                assert(first_unv(pushed, vis) == 0);
            } else {
                assert(first_unv(pushed, vis) == 0);
            }
        }
        assert(first_unv(q2, vis) == first_unv(q, vis) - 1);
        assert(first_unv(q2, vis2) == first_unv(q2, vis));
    }
}

/// The traversal itself, one dequeue per unfolding: answer the counter on
/// an empty queue; answer one more than the counter when the head has an
/// unvisited successor equal to the target; otherwise append the head's
/// unvisited successors, mark the head finished, count the dequeue and go
/// on.
pub open spec fn bfs_rec(
    edges: Seq<Edge>,
    end: usize,
    q: Seq<usize>,
    vis: Seq<bool>,
    d: usize,
) -> usize
    decreases count_false(vis), first_unv(q, vis),
        when bfs_state_ok(edges, q, vis)
        via bfs_rec_decreases
{
    if q.len() == 0 {
        d
    } else {
        let h = q[0];
        let succs = successors(edges, h as int);
        if end < vis.len() && !vis[end as int] && occurs_in(succs, end) {
            sat_inc(d)
        } else {
            bfs_rec(
                edges,
                end,
                q.drop_first() + keep_unvisited(succs, vis),
                vis.update(h as int, true),
                sat_inc(d),
            )
        }
    }
}

#[via_fn]
proof fn bfs_rec_decreases(edges: Seq<Edge>, end: usize, q: Seq<usize>, vis: Seq<bool>, d: usize) {
    if bfs_state_ok(edges, q, vis) && q.len() > 0 {
        lemma_bfs_step_decreases(edges, q, vis);
    }
}

proof fn lemma_bfs_rec_step(edges: Seq<Edge>, end: usize, q: Seq<usize>, vis: Seq<bool>, d: usize)
    requires
        bfs_state_ok(edges, q, vis),
        q.len() > 0,
        !(end < vis.len() && !vis[end as int] && occurs_in(successors(edges, q[0] as int), end)),
    ensures
        bfs_rec(edges, end, q, vis, d) == bfs_rec(
            edges,
            end,
            q.drop_first() + keep_unvisited(successors(edges, q[0] as int), vis),
            vis.update(q[0] as int, true),
            sat_inc(d),
        ),
{
    reveal_with_fuel(bfs_rec, 2);
    let q2 = q.drop_first() + keep_unvisited(successors(edges, q[0] as int), vis);
    let vis2 = vis.update(q[0] as int, true);
    lemma_keep_unvisited_elems(successors(edges, q[0] as int), vis);
    assert forall|k: int| 0 <= k < q2.len() implies (#[trigger] q2[k]) < vis2.len() by {
        if k < q.drop_first().len() {
            assert(q2[k] == q[k + 1]);
        } else {
            assert(q2[k] == keep_unvisited(successors(edges, q[0] as int), vis)[k - q.drop_first(
            ).len()]);
        }
    }
    assert(bfs_state_ok(edges, q2, vis2));
}

/// What `bfs_distance` returns. A start index out of range has no stored
/// edge leaving it, so its lone queue entry is drained after a single
/// counted dequeue.
pub open spec fn bfs_distance_model(
    edges: Seq<Edge>,
    n_nodes: nat,
    start: usize,
    end: usize,
) -> usize {
    if start == end {
        0
    } else if start >= n_nodes {
        1
    } else {
        bfs_rec(edges, end, seq![start], Seq::new(n_nodes, |i: int| false), 0)
    }
}

impl Graph {
    /// The breadth-first pop counter from `start` to `end`: zero exactly
    /// when the two indices are equal, otherwise one more than the number
    /// of nodes dequeued before `end` was first enqueued — or, when `end`
    /// is unreachable, the number of dequeues that drained the queue.
    #[verifier::loop_isolation(false)]
    pub fn bfs_distance(&self, start: usize, end: usize) -> (r: usize)
        requires
            self.wf(),
        ensures
            r == bfs_distance_model(self.edges@, self.nodes@.len() as nat, start, end),
            r == 0 <==> start == end,
    {
        if start == end {
            return 0;
        }
        let n = self.nodes.len();
        if start >= n {
            return 1;
        }

        let mut visited: Vec<bool> = Vec::new();
        let mut i: usize = 0;
        while i < n
            invariant
                i <= n,
                visited@.len() == i,
                forall|j: int| 0 <= j < i ==> !(#[trigger] visited@[j]),
            decreases n - i,
        {
            visited.push(false);
            i = i + 1;
        }
        proof {
            assert(visited@ =~= Seq::new(n as nat, |j: int| false));
        }

        let mut queue: VecDeque<usize> = VecDeque::new();
        queue.push_back(start);
        let mut distance: usize = 0;
        let ghost q0 = queue@;
        let ghost vis0 = visited@;
        proof {
            assert(q0 =~= seq![start]);
        }

        while queue.len() > 0
            invariant
                visited@.len() == n,
                forall|k: int| 0 <= k < queue@.len() ==> (#[trigger] queue@[k]) < n,
                bfs_rec(self.edges@, end, queue@, visited@, distance) == bfs_rec(
                    self.edges@,
                    end,
                    q0,
                    vis0,
                    0,
                ),
                distance == 0 ==> queue@ == q0 && visited@ == vis0,
            decreases count_false(visited@), first_unv(queue@, visited@),
        {
            let ghost q_at = queue@;
            let ghost vis_at = visited@;
            let ghost d_at = distance;
            let working = match queue.pop_front() {
                Some(x) => x,
                None => {
                    proof {
                        assert(false);
                    }
                    0
                },
            };
            proof {
                assert(working == q_at[0]);
                assert(bfs_state_ok(self.edges@, q_at, vis_at));
            }
            let nbrs = self.reachable_nodes_from(working);
            proof {
                lemma_successors_sound_complete(self.edges@, working as int);
            }
            let m = nbrs.len();
            let mut ii: usize = 0;
            while ii < m
                invariant
                    ii <= m,
                    m == nbrs@.len(),
                    nbrs@ == successors(self.edges@, working as int),
                    visited@ == vis_at,
                    queue@ == q_at.drop_first() + keep_unvisited(
                        nbrs@.take(ii as int),
                        vis_at,
                    ),
                    forall|jj: int|
                        0 <= jj < ii ==> !((#[trigger] nbrs@[jj]) == end && !vis_at[nbrs@[jj]
                            as int]),
                decreases m - ii,
            {
                let v = nbrs[ii];
                proof {
                    assert(edge_in(self.edges@, working as int, v as int));
                    let j = choose|j: int|
                        0 <= j < self.edges@.len() && (#[trigger] self.edges@[j]).from == working
                            as int && self.edges@[j].to == v as int;
                    assert(v < n);
                    assert(nbrs@.take(ii + 1).drop_last() =~= nbrs@.take(ii as int));
                    assert(nbrs@.take(ii + 1).last() == v);
                    lemma_keep_unvisited_push(nbrs@.take(ii as int), v, vis_at);
                }
                if !visited[v] {
                    queue.push_back(v);
                    proof {
                        assert(queue@ =~= q_at.drop_first() + keep_unvisited(
                            nbrs@.take(ii + 1),
                            vis_at,
                        ));
                    }
                    if v == end {
                        proof {
                            assert(occurs_in(successors(self.edges@, working as int), end));
                            assert(end < n && !vis_at[end as int]);
                            assert(bfs_rec(self.edges@, end, q_at, vis_at, d_at) == sat_inc(d_at));
                        }
                        if distance == usize::MAX {
                            return distance;
                        } else {
                            return distance + 1;
                        }
                    }
                } else {
                    proof {
                        assert(keep_unvisited(nbrs@.take(ii + 1), vis_at) == keep_unvisited(
                            nbrs@.take(ii as int),
                            vis_at,
                        ));
                    }
                }
                ii = ii + 1;
            }
            proof {
                assert(nbrs@.take(m as int) =~= nbrs@);
                if end < n && !vis_at[end as int] && occurs_in(
                    successors(self.edges@, working as int),
                    end,
                ) {
                    let jj = choose|jj: int|
                        0 <= jj < successors(self.edges@, working as int).len() && successors(
                            self.edges@,
                            working as int,
                        )[jj] == end;
                    assert(nbrs@[jj] == end && !vis_at[nbrs@[jj] as int]);
                    assert(false);
                }
            }
            visited.set(working, true);
            if distance == usize::MAX {
            } else {
                distance = distance + 1;
            }
            proof {
                assert(distance == sat_inc(d_at));
                assert(vis_at.len() == n);
                assert(q_at[0] == working);
                assert(successors(self.edges@, q_at[0] as int) == successors(
                    self.edges@,
                    working as int,
                ));
                assert(!(end < vis_at.len() && !vis_at[end as int] && occurs_in(
                    successors(self.edges@, q_at[0] as int),
                    end,
                )));
                lemma_bfs_rec_step(self.edges@, end, q_at, vis_at, d_at);
                assert(visited@ == vis_at.update(q_at[0] as int, true));
                assert(queue@ == q_at.drop_first() + keep_unvisited(
                    successors(self.edges@, q_at[0] as int),
                    vis_at,
                ));
                assert(bfs_rec(self.edges@, end, q_at, vis_at, d_at) == bfs_rec(
                    self.edges@,
                    end,
                    queue@,
                    visited@,
                    distance,
                ));
                lemma_bfs_step_decreases(self.edges@, q_at, vis_at);
                lemma_keep_unvisited_elems(successors(self.edges@, working as int), vis_at);
            }
        }
        proof {
            assert(bfs_rec(self.edges@, end, queue@, visited@, distance) == distance);
            assert(distance != 0) by {
                if distance == 0 {
                    assert(queue@ == q0);
                }
            }
        }
        distance
    }
}

} // verus!
