//! Breadth-first traversal of a signed-incidence graph, following edges in
//! either direction.

use vstd::prelude::*;
use crate::matrix::{is_walk, lemma_linked_refl, lemma_linked_step, linked, MatrixGraph, NodeIndex};

verus! {

/// How many entries of `s` are `false`.
pub open spec fn count_false(s: Seq<bool>) -> nat
    decreases s.len(),
{
    if s.len() == 0 {
        0
    } else {
        count_false(s.drop_last()) + if s.last() {
            0nat
        } else {
            1nat
        }
    }
}

/// Setting a `false` entry to `true` lowers `count_false` by one.
pub proof fn lemma_count_false_update(s: Seq<bool>, i: int)
    requires
        0 <= i < s.len(),
        !s[i],
    ensures
        count_false(s) >= 1,
        count_false(s.update(i, true)) == count_false(s) - 1,
    decreases s.len(),
{
    if i == s.len() - 1 {
        assert(s.update(i, true).drop_last() =~= s.drop_last());
    } else {
        lemma_count_false_update(s.drop_last(), i);
        assert(s.update(i, true).drop_last() =~= s.drop_last().update(i, true));
    }
}

/// A level assignment certifying breadth-first order: the start sits on
/// level zero, every later node sits one level above some earlier
/// neighbour it was discovered from, and levels never decrease along the
/// traversal.
pub open spec fn breadth_levels(m: MatrixGraph, order: Seq<NodeIndex>, d: Seq<nat>) -> bool {
    &&& d.len() == order.len()
    &&& (order.len() > 0 ==> d[0] == 0)
    &&& forall|k: int|
        1 <= k < order.len() ==> exists|l: int|
            0 <= l < k && m.adjacent((#[trigger] order[k]).0 as int, order[l].0 as int) && d[k]
                == d[l] + 1
    &&& forall|k1: int, k2: int| 0 <= k1 < k2 < order.len() ==> d[k1] <= d[k2]
}

/// The nodes reachable from `start` along edges taken as undirected, in
/// breadth-first order starting at `start`; no node appears twice, and the
/// result is closed under adjacency.
#[verifier::rlimit(100)]
#[verifier::spinoff_prover]
pub fn bfs_nodes_as_undirected(graph: &MatrixGraph, start: NodeIndex) -> (order: Vec<NodeIndex>)
    requires
        graph.wf(),
        graph.valid(start.0 as int),
    ensures
        order@.len() >= 1,
        order@[0] == start,
        forall|k: int| 0 <= k < order@.len() ==> graph.valid((#[trigger] order@[k]).0 as int),
        forall|k1: int, k2: int|
            0 <= k1 < k2 < order@.len() ==> order@[k1].0 != order@[k2].0,
        forall|k: int, w: int|
            0 <= k < order@.len() && graph.valid(w)
                && #[trigger] graph.adjacent(order@[k].0 as int, w)
                ==> exists|l: int| 0 <= l < order@.len() && (#[trigger] order@[l]).0 == w,
        forall|k: int|
            0 <= k < order@.len() ==> linked(*graph, start.0 as int, (#[trigger] order@[k]).0 as int),
        order@.len() <= graph.nodes(),
        forall|k: int|
            1 <= k < order@.len() ==> exists|l: int|
                0 <= l < k && graph.adjacent((#[trigger] order@[k]).0 as int, order@[l].0 as int),
        exists|d: Seq<nat>| breadth_levels(*graph, order@, d),
{
    let n = graph.nodes_count();
    let mut visited: Vec<bool> = Vec::new();
    let mut i: usize = 0;
    while i < n
        invariant
            i <= n,
            visited@.len() == i,
            forall|k: int| 0 <= k < i ==> !(#[trigger] visited@[k]),
        decreases n - i,
    {
        visited.push(false);
        i = i + 1;
    }
    proof {
        lemma_count_false_all(visited@);
    }
    let ghost v0 = visited@;
    let ghost mut dist: Seq<nat> = seq![0nat];
    let mut order: Vec<NodeIndex> = Vec::new();
    order.push(start);
    visited[start.0] = true;
    proof {
        lemma_count_false_update(v0, start.0 as int);
        assert(visited@ =~= v0.update(start.0 as int, true));
        assert(order@[0] == start);
        lemma_linked_refl(*graph, start.0 as int);
    }
    let mut head: usize = 0;
    while head < order.len()
        invariant
            graph.wf(),
            graph.nodes() == n,
            visited@.len() == n,
            head <= order@.len(),
            order@.len() + count_false(visited@) == n,
            order@.len() >= 1,
            order@[0] == start,
            forall|k: int| 0 <= k < order@.len() ==> graph.valid((#[trigger] order@[k]).0 as int),
            forall|k: int| 0 <= k < order@.len() ==> visited@[(#[trigger] order@[k]).0 as int],
            forall|v: int|
                0 <= v < n && #[trigger] visited@[v]
                    ==> exists|l: int| 0 <= l < order@.len() && (#[trigger] order@[l]).0 == v,
            forall|k1: int, k2: int|
                0 <= k1 < k2 < order@.len() ==> order@[k1].0 != order@[k2].0,
            forall|k: int|
                0 <= k < order@.len()
                    ==> linked(*graph, start.0 as int, (#[trigger] order@[k]).0 as int),
            forall|k: int|
                1 <= k < order@.len() ==> exists|l: int|
                    0 <= l < k && graph.adjacent(
                        (#[trigger] order@[k]).0 as int,
                        order@[l].0 as int,
                    ),
            dist.len() == order@.len(),
            dist[0] == 0,
            forall|k: int|
                1 <= k < order@.len() ==> exists|l: int|
                    0 <= l < k && graph.adjacent(
                        (#[trigger] order@[k]).0 as int,
                        order@[l].0 as int,
                    ) && dist[k] == dist[l] + 1,
            forall|k1: int, k2: int| 0 <= k1 < k2 < order@.len() ==> dist[k1] <= dist[k2],
            head < order@.len() ==> dist[order@.len() - 1] <= dist[head as int] + 1,
            forall|k: int, w: int|
                0 <= k < head && graph.valid(w)
                    && #[trigger] graph.adjacent(order@[k].0 as int, w)
                    ==> visited@[w],
        decreases 2 * n - order@.len() - head,
    {
        let v = order[head];
        let ghost len0 = order@.len();
        let neighbours = graph.neighbour_nodes(v);
        let mut j: usize = 0;
        while j < neighbours.len()
            invariant
                order@.len() >= len0,
                graph.wf(),
                graph.nodes() == n,
                graph.valid(v.0 as int),
                visited@.len() == n,
                j <= neighbours@.len(),
                order@.len() + count_false(visited@) == n,
                order@.len() >= 1,
                order@[0] == start,
                head < order@.len(),
                order@[head as int] == v,
                forall|k: int|
                    0 <= k < neighbours@.len()
                        ==> graph.valid((#[trigger] neighbours@[k]).0 as int)
                            && graph.adjacent(v.0 as int, neighbours@[k].0 as int),
                forall|w: int|
                    graph.valid(w) && graph.adjacent(v.0 as int, w)
                        ==> exists|k: int|
                        0 <= k < neighbours@.len() && (#[trigger] neighbours@[k]).0 == w,
                forall|k: int|
                    0 <= k < order@.len() ==> graph.valid((#[trigger] order@[k]).0 as int),
                forall|k: int| 0 <= k < order@.len() ==> visited@[(#[trigger] order@[k]).0 as int],
                forall|v2: int|
                    0 <= v2 < n && #[trigger] visited@[v2]
                        ==> exists|l: int| 0 <= l < order@.len() && (#[trigger] order@[l]).0 == v2,
                forall|k1: int, k2: int|
                    0 <= k1 < k2 < order@.len() ==> order@[k1].0 != order@[k2].0,
                forall|k: int|
                    0 <= k < order@.len()
                        ==> linked(*graph, start.0 as int, (#[trigger] order@[k]).0 as int),
                forall|k: int|
                    1 <= k < order@.len() ==> exists|l: int|
                        0 <= l < k && graph.adjacent(
                            (#[trigger] order@[k]).0 as int,
                            order@[l].0 as int,
                        ),
                dist.len() == order@.len(),
                dist[0] == 0,
                forall|k: int|
                    1 <= k < order@.len() ==> exists|l: int|
                        0 <= l < k && graph.adjacent(
                            (#[trigger] order@[k]).0 as int,
                            order@[l].0 as int,
                        ) && dist[k] == dist[l] + 1,
                forall|k1: int, k2: int| 0 <= k1 < k2 < order@.len() ==> dist[k1] <= dist[k2],
                dist[order@.len() - 1] <= dist[head as int] + 1,
                forall|k: int, w: int|
                    0 <= k < head && graph.valid(w)
                        && #[trigger] graph.adjacent(order@[k].0 as int, w)
                        ==> visited@[w],
                forall|k: int| 0 <= k < j ==> visited@[(#[trigger] neighbours@[k]).0 as int],
            decreases neighbours@.len() - j,
        {
            let w = neighbours[j];
            if !visited[w.0] {
                proof {
                    lemma_count_false_update(visited@, w.0 as int);
                }
                let ghost order0 = order@;
                let ghost dist0 = dist;
                visited[w.0] = true;
                order.push(w);
                proof {
                    dist = dist.push(dist0[head as int] + 1);
                    assert(order@[order@.len() - 1] == w);
                    assert(dist[order@.len() - 1] == dist0[head as int] + 1);
                    assert forall|k1: int, k2: int| 0 <= k1 < k2 < order@.len()
                        implies dist[k1] <= dist[k2] by {
                        if k2 < order0.len() {
                            assert(dist[k1] == dist0[k1] && dist[k2] == dist0[k2]);
                        } else {
                            assert(dist[k1] == dist0[k1]);
                            assert(dist0[k1] <= dist0[order0.len() - 1]);
                        }
                    }
                    assert forall|k: int| 1 <= k < order@.len()
                        implies exists|l: int|
                            0 <= l < k && graph.adjacent(
                                (#[trigger] order@[k]).0 as int,
                                order@[l].0 as int,
                            ) && dist[k] == dist[l] + 1 by {
                        if k < order0.len() {
                            assert(order@[k] == order0[k]);
                            let l = choose|l: int|
                                0 <= l < k && graph.adjacent(
                                    (#[trigger] order0[k]).0 as int,
                                    order0[l].0 as int,
                                ) && dist0[k] == dist0[l] + 1;
                            assert(order@[l] == order0[l]);
                            assert(graph.adjacent(order@[k].0 as int, order@[l].0 as int)
                                && dist[k] == dist[l] + 1);
                        } else {
                            assert(order@[head as int] == v);
                            assert(graph.adjacent(order@[k].0 as int, order@[head as int].0 as int));
                            assert(dist[k] == dist[head as int] + 1);
                        }
                    }
                    lemma_linked_step(*graph, start.0 as int, v.0 as int, w.0 as int);
                    assert forall|k: int| 0 <= k < order@.len()
                        implies linked(*graph, start.0 as int, (#[trigger] order@[k]).0 as int) by {
                        if k < order0.len() {
                            assert(order@[k] == order0[k]);
                        }
                    }
                    assert(graph.entry(w.0 as int, v.0 as int)
                        == -graph.entry(v.0 as int, w.0 as int));
                    assert forall|k: int| 1 <= k < order@.len()
                        implies exists|l: int|
                            0 <= l < k && graph.adjacent(
                                (#[trigger] order@[k]).0 as int,
                                order@[l].0 as int,
                            ) by {
                        if k < order0.len() {
                            assert(order@[k] == order0[k]);
                            let l = choose|l: int|
                                0 <= l < k && graph.adjacent(
                                    (#[trigger] order0[k]).0 as int,
                                    order0[l].0 as int,
                                );
                            assert(order@[l] == order0[l]);
                            assert(graph.adjacent(order@[k].0 as int, order@[l].0 as int));
                        } else {
                            assert(order@[head as int] == v);
                            assert(graph.adjacent(order@[k].0 as int, order@[head as int].0 as int));
                        }
                    }
                    assert forall|v2: int| 0 <= v2 < n && #[trigger] visited@[v2]
                        implies exists|l: int|
                            0 <= l < order@.len() && (#[trigger] order@[l]).0 == v2 by {
                        if v2 == w.0 {
                            assert(order@[order@.len() - 1].0 == v2);
                        } else {
                            let l = choose|l: int|
                                0 <= l < order0.len() && (#[trigger] order0[l]).0 == v2;
                            assert(order@[l].0 == v2);
                        }
                    }
                }
            }
            j = j + 1;
        }
        head = head + 1;
    }
    proof {
        assert(breadth_levels(*graph, order@, dist));
    }
    order
}

/// A sequence of `false` values has only `false` entries to count.
pub proof fn lemma_count_false_all(s: Seq<bool>)
    requires
        forall|k: int| 0 <= k < s.len() ==> !(#[trigger] s[k]),
    ensures
        count_false(s) == s.len(),
    decreases s.len(),
{
    if s.len() > 0 {
        lemma_count_false_all(s.drop_last());
    }
}


/// Every prefix node of a walk from the start appears in a list that
/// contains the start and is closed under adjacency.
proof fn lemma_walk_prefix_listed(
    m: MatrixGraph,
    order: Seq<NodeIndex>,
    p: Seq<int>,
    i: int,
)
    requires
        order.len() >= 1,
        0 <= i < p.len(),
        p.len() >= 1,
        order[0].0 == p[0],
        forall|k: int| 0 <= k < p.len() ==> m.valid(#[trigger] p[k]),
        forall|k: int| 0 <= k < p.len() - 1 ==> m.adjacent(#[trigger] p[k], p[k + 1]),
        forall|k: int, w: int|
            0 <= k < order.len() && m.valid(w) && #[trigger] m.adjacent(order[k].0 as int, w)
                ==> exists|l: int| 0 <= l < order.len() && (#[trigger] order[l]).0 == w,
    ensures
        exists|l: int| 0 <= l < order.len() && (#[trigger] order[l]).0 == p[i],
    decreases i,
{
    if i == 0 {
        assert(order[0].0 == p[0]);
    } else {
        lemma_walk_prefix_listed(m, order, p, i - 1);
        let l = choose|l: int| 0 <= l < order.len() && (#[trigger] order[l]).0 == p[i - 1];
        assert(m.adjacent(order[l].0 as int, p[i]));
    }
}

/// A list that contains `start` and is closed under adjacency lists every
/// node linked to `start`.
pub proof fn lemma_linked_nodes_listed(
    m: MatrixGraph,
    order: Seq<NodeIndex>,
    start: NodeIndex,
    x: int,
)
    requires
        order.len() >= 1,
        order[0] == start,
        m.valid(x),
        linked(m, start.0 as int, x),
        forall|k: int, w: int|
            0 <= k < order.len() && m.valid(w) && #[trigger] m.adjacent(order[k].0 as int, w)
                ==> exists|l: int| 0 <= l < order.len() && (#[trigger] order[l]).0 == w,
    ensures
        exists|l: int| 0 <= l < order.len() && (#[trigger] order[l]).0 == x,
{
    let p = choose|p: Seq<int>| is_walk(m, p, start.0 as int, x);
    lemma_walk_prefix_listed(m, order, p, p.len() - 1);
}

/// A sequence of `true` values leaves nothing to count.
pub proof fn lemma_count_false_none(s: Seq<bool>)
    requires
        forall|k: int| 0 <= k < s.len() ==> #[trigger] s[k],
    ensures
        count_false(s) == 0,
    decreases s.len(),
{
    if s.len() > 0 {
        lemma_count_false_none(s.drop_last());
    }
}

} // verus!
