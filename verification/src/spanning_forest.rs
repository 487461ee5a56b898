//! One spanning tree per connected component of a signed-incidence graph,
//! built by constrained breadth-first search and maintained incrementally
//! under edge insertion. Edge removal has no incremental form: callers
//! rebuild the forest from the post-removal graph.
//!
//! Alongside the tree matrix the forest carries a ghost component map:
//! every node knows its root representative, every node is tree-linked to
//! that root, and tree edges never cross components. `build` additionally
//! guarantees that graph-adjacent nodes share a component, which pins the
//! components down as exactly the graph's connected components.

use vstd::prelude::*;
use crate::bfs::{bfs_nodes_as_undirected, count_false, lemma_count_false_all,
    lemma_count_false_none, lemma_count_false_update, lemma_linked_nodes_listed};
use crate::matrix::{is_walk, lemma_linked_mono, lemma_linked_refl, lemma_linked_step,
    lemma_linked_sym, lemma_linked_trans, linked, MatrixGraph, NodeIndex};

verus! {

/// A spanning forest: an acyclic sub-graph holding one tree per connected
/// component, one representative root per tree, and the ghost map from
/// each node to its root.
pub struct SpanningForest {
    forest: MatrixGraph,
    roots: Vec<NodeIndex>,
    comp: Ghost<Seq<NodeIndex>>,
}

/// A fresh vector of `n` cleared flags.
fn make_flags(n: usize) -> (r: Vec<bool>)
    ensures
        r@.len() == n,
        forall|k: int| 0 <= k < n ==> !(#[trigger] r@[k]),
{
    let mut r: Vec<bool> = Vec::new();
    let mut i: usize = 0;
    while i < n
        invariant
            i <= n,
            r@.len() == i,
            forall|k: int| 0 <= k < i ==> !(#[trigger] r@[k]),
        decreases n - i,
    {
        r.push(false);
        i = i + 1;
    }
    r
}

/// A fresh vector of `n` zero indices.
fn make_indices(n: usize) -> (r: Vec<usize>)
    ensures
        r@.len() == n,
        forall|k: int| 0 <= k < n ==> (#[trigger] r@[k]) == 0,
{
    let mut r: Vec<usize> = Vec::new();
    let mut i: usize = 0;
    while i < n
        invariant
            r@.len() == i,
            i <= n,
            forall|k: int| 0 <= k < i ==> (#[trigger] r@[k]) == 0,
        decreases n - i,
    {
        r.push(0);
        i = i + 1;
    }
    r
}

impl SpanningForest {
    /// How many nodes the forest covers.
    pub closed spec fn nodes(self) -> nat {
        self.forest.nodes()
    }

    /// `v` names a node of this forest.
    pub open spec fn valid(self, v: int) -> bool {
        0 <= v < self.nodes()
    }

    /// `a` and `b` are joined by a tree edge, in either direction.
    pub closed spec fn tree_adjacent(self, a: int, b: int) -> bool {
        self.forest.adjacent(a, b)
    }

    /// `a` and `b` lie in one tree of the forest.
    pub closed spec fn tree_linked(self, a: int, b: int) -> bool {
        linked(self.forest, a, b)
    }

    /// The root representative of the tree that holds node `v`.
    pub closed spec fn component_of(self, v: int) -> NodeIndex {
        self.comp@[v]
    }

    /// How many tree roots (connected components) the forest records.
    pub closed spec fn roots_len(self) -> nat {
        self.roots@.len()
    }

    /// `r` is one of the listed roots.
    pub closed spec fn root_listed(self, r: NodeIndex) -> bool {
        exists|k: int| 0 <= k < self.roots@.len() && self.roots@[k] == r
    }

    /// The forest invariant: the matrix is well formed; the tree-edge
    /// count equals node count minus root count; the listed roots are
    /// distinct nodes that represent themselves; every node's component
    /// is a listed root the node is tree-linked to; and a tree edge never
    /// joins two components. The count clause is the forest property:
    /// `n - c` edges spanning `c` components leave no room for a cycle.
    pub closed spec fn wf(self) -> bool {
        &&& self.forest.wf()
        &&& self.forest.edge_count() + self.roots@.len() == self.nodes()
        &&& self.comp@.len() == self.nodes()
        &&& forall|k: int|
            0 <= k < self.roots@.len() ==> (#[trigger] self.roots@[k]).0 < self.nodes()
                && self.comp@[self.roots@[k].0 as int] == self.roots@[k]
        &&& forall|k1: int, k2: int|
            0 <= k1 < k2 < self.roots@.len() ==> self.roots@[k1].0 != self.roots@[k2].0
        &&& forall|v: int|
            0 <= v < self.nodes() ==> (#[trigger] self.comp@[v]).0 < self.nodes()
                && self.root_listed(self.comp@[v])
                && linked(self.forest, v, self.comp@[v].0 as int)
        &&& forall|x: int, y: int|
            self.valid(x) && self.valid(y) && #[trigger] self.forest.adjacent(x, y)
                ==> self.comp@[x] == self.comp@[y]
    }

    /// An ordered walk: consecutive edges chain head-to-tail, every pair is
    /// tree-adjacent, and the walk leads from `end` back to `start`.
    pub open spec fn tree_walk(
        self,
        path: Seq<[NodeIndex; 2]>,
        start: NodeIndex,
        end: NodeIndex,
    ) -> bool {
        &&& path.len() >= 1
        &&& path[0][0].0 == end.0
        &&& path[path.len() - 1][1].0 == start.0
        &&& forall|i: int|
            0 <= i < path.len() ==> self.valid((#[trigger] path[i])[0].0 as int)
                && self.valid(path[i][1].0 as int)
                && self.tree_adjacent(path[i][0].0 as int, path[i][1].0 as int)
        &&& forall|i: int| 0 <= i < path.len() - 1 ==> (#[trigger] path[i])[1].0 == path[i + 1][0].0
    }

    /// The walk is simple: no tail node repeats, and the walk never
    /// returns to its final head. With the chaining of `tree_walk` this
    /// makes all visited nodes distinct, so no edge pair repeats in either
    /// orientation.
    pub open spec fn walk_nodes_distinct(path: Seq<[NodeIndex; 2]>) -> bool {
        &&& forall|t1: int, t2: int|
            0 <= t1 < t2 < path.len() ==> (#[trigger] path[t1])[0].0 != (#[trigger] path[t2])[0].0
        &&& forall|t: int|
            0 <= t < path.len() ==> (#[trigger] path[t])[0].0 != path[path.len() - 1][1].0
    }

    /// Tree adjacency has no direction: an edge joins both ways.
    pub proof fn lemma_tree_adjacent_symmetric(self, a: int, b: int)
        requires
            self.wf(),
            self.valid(a),
            self.valid(b),
        ensures
            self.tree_adjacent(a, b) == self.tree_adjacent(b, a),
    {
        assert(self.forest.entry(a, b) == -self.forest.entry(b, a));
    }

    /// No tree edge joins a node to itself.
    pub proof fn lemma_tree_adjacent_irreflexive(self, v: int)
        requires
            self.wf(),
            self.valid(v),
        ensures
            !self.tree_adjacent(v, v),
    {
        assert(self.forest.entry(v, v) == -self.forest.entry(v, v));
    }

    /// A component representative is itself a node.
    pub proof fn lemma_component_valid(self)
        requires
            self.wf(),
        ensures
            forall|v: int|
                self.valid(v) ==> (#[trigger] self.component_of(v)).0 < self.nodes(),
    {
    }

    /// Along a tree walk the component never changes.
    proof fn lemma_comp_constant_on_walk(self, p: Seq<int>, i: int)
        requires
            self.wf(),
            p.len() >= 1,
            0 <= i < p.len(),
            forall|k: int| 0 <= k < p.len() ==> self.forest.valid(#[trigger] p[k]),
            forall|k: int|
                0 <= k < p.len() - 1 ==> self.forest.adjacent(#[trigger] p[k], p[k + 1]),
        ensures
            self.comp@[p[0]] == self.comp@[p[i]],
        decreases i,
    {
        if i > 0 {
            self.lemma_comp_constant_on_walk(p, i - 1);
            assert(self.forest.adjacent(p[i - 1], p[i]));
        }
    }

    /// Two nodes lie in one tree exactly when they share a component.
    pub proof fn lemma_linked_components(self, a: int, b: int)
        requires
            self.wf(),
            self.valid(a),
            self.valid(b),
        ensures
            self.tree_linked(a, b) == (self.component_of(a) == self.component_of(b)),
    {
        if self.tree_linked(a, b) {
            let p = choose|p: Seq<int>| is_walk(self.forest, p, a, b);
            self.lemma_comp_constant_on_walk(p, p.len() - 1);
        }
        if self.component_of(a) == self.component_of(b) {
            let r = self.comp@[a].0 as int;
            assert(linked(self.forest, a, r));
            assert(linked(self.forest, b, r));
            lemma_linked_sym(self.forest, b, r);
            lemma_linked_trans(self.forest, a, r, b);
        }
    }

    /// The forest spans: against a graph whose adjacency covers the tree
    /// edges and whose adjacent nodes share a component, two nodes are
    /// tree-linked exactly when they are linked in the graph.
    pub proof fn lemma_spans(self, graph: MatrixGraph, a: int, b: int)
        requires
            self.wf(),
            graph.wf(),
            self.nodes() == graph.nodes(),
            forall|x: int, y: int|
                self.valid(x) && self.valid(y) && #[trigger] self.tree_adjacent(x, y)
                    ==> graph.adjacent(x, y),
            forall|x: int, y: int|
                self.valid(x) && self.valid(y) && #[trigger] graph.adjacent(x, y)
                    ==> self.component_of(x) == self.component_of(y),
            self.valid(a),
            self.valid(b),
        ensures
            self.tree_linked(a, b) == linked(graph, a, b),
    {
        if self.tree_linked(a, b) {
            let p = choose|p: Seq<int>| is_walk(self.forest, p, a, b);
            assert forall|k: int| 0 <= k < p.len() - 1
                implies graph.adjacent(#[trigger] p[k], p[k + 1]) by {
                assert(self.tree_adjacent(p[k], p[k + 1]));
            }
            assert(is_walk(graph, p, a, b));
        }
        if linked(graph, a, b) {
            let p = choose|p: Seq<int>| is_walk(graph, p, a, b);
            self.lemma_comp_constant_on_graph_walk(graph, p, p.len() - 1);
            self.lemma_linked_components(a, b);
        }
    }

    /// Along a graph walk whose adjacent nodes share a component, the
    /// component never changes.
    proof fn lemma_comp_constant_on_graph_walk(self, graph: MatrixGraph, p: Seq<int>, i: int)
        requires
            self.nodes() == graph.nodes(),
            forall|x: int, y: int|
                self.valid(x) && self.valid(y) && #[trigger] graph.adjacent(x, y)
                    ==> self.component_of(x) == self.component_of(y),
            p.len() >= 1,
            0 <= i < p.len(),
            forall|k: int| 0 <= k < p.len() ==> graph.valid(#[trigger] p[k]),
            forall|k: int| 0 <= k < p.len() - 1 ==> graph.adjacent(#[trigger] p[k], p[k + 1]),
        ensures
            self.comp@[p[0]] == self.comp@[p[i]],
        decreases i,
    {
        if i > 0 {
            self.lemma_comp_constant_on_graph_walk(graph, p, i - 1);
            assert(graph.adjacent(p[i - 1], p[i]));
        }
    }

    /// Builds a spanning forest of `graph`: repeatedly picks an unvisited
    /// node as a new tree root and grows its tree by breadth-first search.
    /// A discovered edge joins the tree only if every other neighbour of the
    /// discovered node is either the current node or not yet visited, which
    /// keeps the root representatives simple to re-root from after edits.
    /// Graph-adjacent nodes end up in one component, so the trees span the
    /// graph's connected components exactly (`lemma_spans`).
    #[verifier::rlimit(100)]
    #[verifier::spinoff_prover]
    pub fn build(graph: &MatrixGraph) -> (r: Self)
        requires
            graph.wf(),
        ensures
            r.wf(),
            r.nodes() == graph.nodes(),
            forall|a: int, b: int|
                r.valid(a) && r.valid(b) && #[trigger] r.tree_adjacent(a, b)
                    ==> graph.adjacent(a, b),
            forall|a: int, b: int|
                r.valid(a) && r.valid(b) && #[trigger] graph.adjacent(a, b)
                    ==> r.component_of(a) == r.component_of(b),
    {
        let n = graph.nodes_count();
        let mut forest = MatrixGraph::new(n);
        let mut roots: Vec<NodeIndex> = Vec::new();
        let mut visited = make_flags(n);
        let mut queued = make_flags(n);
        proof {
            lemma_count_false_all(queued@);
        }
        let ghost identity = Seq::new(n as nat, |i: int| NodeIndex(0));
        let ghost mut comp: Seq<NodeIndex> = identity;
        let ghost mut processed: Seq<bool> = Seq::new(n as nat, |i: int| false);
        let mut root_cand: usize = 0;
        while root_cand < n
            invariant
                graph.wf(),
                graph.nodes() == n,
                forest.wf(),
                forest.nodes() == n,
                visited@.len() == n,
                queued@.len() == n,
                comp.len() == n,
                processed.len() == n,
                forest.edge_count() + roots@.len() + count_false(queued@) == n,
                forall|x: int| 0 <= x < root_cand ==> #[trigger] visited@[x],
                forall|x: int| 0 <= x < n && #[trigger] visited@[x] ==> queued@[x],
                forall|k: int|
                    0 <= k < roots@.len() ==> (#[trigger] roots@[k]).0 < n
                        && comp[roots@[k].0 as int] == roots@[k]
                        && visited@[roots@[k].0 as int],
                forall|k1: int, k2: int|
                    0 <= k1 < k2 < roots@.len() ==> roots@[k1].0 != roots@[k2].0,
                forall|x: int|
                    0 <= x < n && (visited@[x] || queued@[x])
                        ==> (#[trigger] comp[x]).0 < n
                            && (exists|k: int|
                            0 <= k < roots@.len() && (#[trigger] roots@[k]) == comp[x])
                            && linked(forest, x, comp[x].0 as int),
                forall|x: int, y: int|
                    0 <= x < n && 0 <= y < n && #[trigger] forest.adjacent(x, y)
                        ==> comp[x] == comp[y],
                forall|a: int, b: int|
                    0 <= a < n && 0 <= b < n && #[trigger] forest.adjacent(a, b)
                        ==> graph.adjacent(a, b),
                forall|x: int, w: int|
                    0 <= x < n && 0 <= w < n && processed[x]
                        && #[trigger] graph.adjacent(x, w)
                        ==> comp[w] == comp[x] && (visited@[w] || queued@[w]),
                forall|x: int| 0 <= x < n && #[trigger] visited@[x] ==> processed[x],
                forall|x: int| 0 <= x < n && #[trigger] processed[x] ==> visited@[x],
                forall|x: int| 0 <= x < n && #[trigger] queued@[x] ==> visited@[x],
                forall|x: int, y: int|
                    0 <= x < n && 0 <= y < n && !visited@[x] && !queued@[x]
                        ==> !(#[trigger] forest.adjacent(x, y)),
            decreases n - root_cand,
        {
            if !visited[root_cand] {
                let root = NodeIndex(root_cand);
                let ghost roots0 = roots@;
                let ghost comp_before = comp;
                let ghost queued_before = queued@;
                roots.push(root);
                visited[root_cand] = true;
                queued[root_cand] = true;
                proof {
                    lemma_count_false_update(queued_before, root_cand as int);
                    comp = comp.update(root_cand as int, root);
                    lemma_linked_refl(forest, root_cand as int);
                    assert(roots@[roots@.len() - 1] == root);
                    assert(!processed[root_cand as int]);
                    assert forall|x: int|
                        0 <= x < n && (visited@[x] || queued@[x])
                        implies (#[trigger] comp[x]).0 < n && (exists|k: int|
                        0 <= k < roots@.len() && (#[trigger] roots@[k]) == comp[x]) && linked(
                            forest,
                            x,
                            comp[x].0 as int,
                        ) by {
                        if x == root_cand {
                            assert(roots@[roots@.len() - 1] == comp[x]);
                        } else {
                            assert(comp[x] == comp_before[x]);
                            let k = choose|k: int|
                                0 <= k < roots0.len() && (#[trigger] roots0[k]) == comp_before[x];
                            assert(roots@[k] == comp[x]);
                        }
                    }
                    assert forall|k: int|
                        0 <= k < roots@.len() implies (#[trigger] roots@[k]).0 < n
                            && comp[roots@[k].0 as int] == roots@[k]
                            && visited@[roots@[k].0 as int] by {
                        if k < roots0.len() {
                            assert(roots@[k] == roots0[k]);
                            assert(roots0[k].0 != root_cand);
                        }
                    }
                }
                let mut queue: Vec<NodeIndex> = Vec::new();
                queue.push(root);
                let mut head: usize = 0;
                proof {
                    assert(queue@[0] == root);
                    assert forall|x: int| 0 <= x < n && #[trigger] visited@[x]
                        implies processed[x] || (exists|k: int|
                            0 <= k < queue@.len() && (#[trigger] queue@[k]).0 == x) by {
                        if x == root_cand {
                            assert(queue@[0].0 == x);
                        }
                    }
                    assert forall|x: int| 0 <= x < n && #[trigger] queued@[x]
                        implies visited@[x] || (exists|k: int|
                            0 <= k < queue@.len() && (#[trigger] queue@[k]).0 == x) by {}
                }
                while head < queue.len()
                    invariant
                        graph.wf(),
                        graph.nodes() == n,
                        forest.wf(),
                        forest.nodes() == n,
                        visited@.len() == n,
                        queued@.len() == n,
                        comp.len() == n,
                        processed.len() == n,
                        head <= queue@.len(),
                        root.0 == root_cand < n,
                        roots@.len() >= 1,
                        roots@[roots@.len() - 1] == root,
                        forest.edge_count() + roots@.len() + count_false(queued@) == n,
                        forall|x: int| 0 <= x <= root_cand ==> #[trigger] visited@[x],
                        forall|x: int| 0 <= x < n && #[trigger] visited@[x] ==> queued@[x],
                        forall|k: int|
                            head < k < queue@.len()
                                ==> !visited@[(#[trigger] queue@[k]).0 as int],
                        forall|k: int|
                            0 <= k < queue@.len() ==> (#[trigger] queue@[k]).0 < n
                                && comp[queue@[k].0 as int] == root
                                && queued@[queue@[k].0 as int],
                        forall|k1: int, k2: int|
                            0 <= k1 < k2 < queue@.len() ==> queue@[k1].0 != queue@[k2].0,
                        forall|k: int|
                            head <= k < queue@.len()
                                ==> !processed[(#[trigger] queue@[k]).0 as int],
                        forall|k: int|
                            0 <= k < head ==> visited@[(#[trigger] queue@[k]).0 as int]
                                && processed[queue@[k].0 as int],
                        forall|k: int|
                            0 <= k < roots@.len() ==> (#[trigger] roots@[k]).0 < n
                                && comp[roots@[k].0 as int] == roots@[k]
                                && visited@[roots@[k].0 as int],
                        forall|k1: int, k2: int|
                            0 <= k1 < k2 < roots@.len() ==> roots@[k1].0 != roots@[k2].0,
                        forall|x: int|
                            0 <= x < n && (visited@[x] || queued@[x])
                                ==> (#[trigger] comp[x]).0 < n
                                    && (exists|k: int|
                                    0 <= k < roots@.len() && (#[trigger] roots@[k]) == comp[x])
                                    && linked(forest, x, comp[x].0 as int),
                        forall|x: int, y: int|
                            0 <= x < n && 0 <= y < n && #[trigger] forest.adjacent(x, y)
                                ==> comp[x] == comp[y],
                        forall|a: int, b: int|
                            0 <= a < n && 0 <= b < n && #[trigger] forest.adjacent(a, b)
                                ==> graph.adjacent(a, b),
                        forall|x: int, w: int|
                            0 <= x < n && 0 <= w < n && processed[x]
                                && #[trigger] graph.adjacent(x, w)
                                ==> comp[w] == comp[x] && (visited@[w] || queued@[w]),
                        forall|x: int|
                            0 <= x < n && #[trigger] visited@[x] ==> processed[x] || (exists|k: int|
                                head <= k < queue@.len() && (#[trigger] queue@[k]).0 == x),
                        forall|x: int| 0 <= x < n && #[trigger] processed[x] ==> visited@[x],
                        forall|x: int|
                            0 <= x < n && #[trigger] queued@[x] ==> visited@[x] || (exists|k: int|
                                head <= k < queue@.len() && (#[trigger] queue@[k]).0 == x),
                        forall|x: int, y: int|
                            0 <= x < n && 0 <= y < n && !visited@[x] && !queued@[x]
                                ==> !(#[trigger] forest.adjacent(x, y)),
                    decreases count_false(queued@), queue@.len() - head,
                {
                    let ghost queued0 = queued@;
                    let ghost qlen0 = queue@.len();
                    let v = queue[head];
                    let ghost visited0 = visited@;
                    visited[v.0] = true;
                    proof {
                        assert forall|x: int| 0 <= x < n && #[trigger] visited@[x]
                            implies processed[x] || x == v.0 by {
                            if x != v.0 {
                                assert(visited0[x]);
                                if !processed[x] {
                                    let k = choose|k: int|
                                        head <= k < queue@.len() && (#[trigger] queue@[k]).0
                                            == x;
                                    assert(k != head);
                                    assert(!visited0[queue@[k].0 as int]);
                                }
                            }
                        }
                    }
                    let neighbours = graph.neighbour_nodes(v);
                    let mut j: usize = 0;
                    while j < neighbours.len()
                        invariant
                            graph.wf(),
                            graph.nodes() == n,
                            graph.valid(v.0 as int),
                            forest.wf(),
                            forest.nodes() == n,
                            visited@.len() == n,
                            queued@.len() == n,
                            queued0.len() == n,
                            comp.len() == n,
                            processed.len() == n,
                            j <= neighbours@.len(),
                            head < queue@.len(),
                            queue@.len() >= qlen0,
                            root.0 == root_cand < n,
                            roots@.len() >= 1,
                            roots@[roots@.len() - 1] == root,
                            forest.edge_count() + roots@.len() + count_false(queued@) == n,
                            forall|x: int| 0 <= x <= root_cand ==> #[trigger] visited@[x],
                            forall|x: int| 0 <= x < n && #[trigger] visited@[x] ==> queued@[x],
                            forall|k: int|
                                head < k < queue@.len()
                                    ==> !visited@[(#[trigger] queue@[k]).0 as int],
                            queue@[head as int] == v,
                            visited@[v.0 as int],
                            comp[v.0 as int] == root,
                            !processed[v.0 as int],
                            forall|k: int|
                                0 <= k < neighbours@.len()
                                    ==> graph.valid((#[trigger] neighbours@[k]).0 as int)
                                        && graph.adjacent(v.0 as int, neighbours@[k].0 as int),
                            forall|w: int|
                                graph.valid(w) && graph.adjacent(v.0 as int, w)
                                    ==> exists|k: int|
                                    0 <= k < neighbours@.len() && (#[trigger] neighbours@[k]).0
                                        == w,
                            forall|k: int|
                                0 <= k < queue@.len() ==> (#[trigger] queue@[k]).0 < n
                                    && comp[queue@[k].0 as int] == root
                                    && queued@[queue@[k].0 as int],
                            forall|k1: int, k2: int|
                                0 <= k1 < k2 < queue@.len() ==> queue@[k1].0 != queue@[k2].0,
                            forall|k: int|
                                head <= k < queue@.len()
                                    ==> !processed[(#[trigger] queue@[k]).0 as int],
                            forall|k: int|
                                0 <= k < head ==> visited@[(#[trigger] queue@[k]).0 as int]
                                    && processed[queue@[k].0 as int],
                            forall|k: int|
                                0 <= k < roots@.len() ==> (#[trigger] roots@[k]).0 < n
                                    && comp[roots@[k].0 as int] == roots@[k]
                                    && visited@[roots@[k].0 as int],
                            forall|k1: int, k2: int|
                                0 <= k1 < k2 < roots@.len() ==> roots@[k1].0 != roots@[k2].0,
                            forall|x: int|
                                0 <= x < n && (visited@[x] || queued@[x])
                                    ==> (#[trigger] comp[x]).0 < n
                                        && (exists|k: int|
                                        0 <= k < roots@.len() && (#[trigger] roots@[k]) == comp[x]) && linked(forest, x, comp[x].0 as int),
                            forall|x: int, y: int|
                                0 <= x < n && 0 <= y < n && #[trigger] forest.adjacent(x, y)
                                    ==> comp[x] == comp[y],
                            forall|a: int, b: int|
                                0 <= a < n && 0 <= b < n && #[trigger] forest.adjacent(a, b)
                                    ==> graph.adjacent(a, b),
                            forall|x: int, w: int|
                                0 <= x < n && 0 <= w < n && processed[x]
                                    && #[trigger] graph.adjacent(x, w)
                                    ==> comp[w] == comp[x] && (visited@[w] || queued@[w]),
                            forall|x: int|
                                0 <= x < n && #[trigger] visited@[x] ==> processed[x] || x == v.0,
                            forall|x: int| 0 <= x < n && #[trigger] processed[x] ==> visited@[x],
                            forall|x: int|
                                0 <= x < n && #[trigger] queued@[x] ==> visited@[x] || (exists|
                                    k: int,
                                |
                                    head <= k < queue@.len() && (#[trigger] queue@[k]).0 == x),
                            forall|x: int, y: int|
                                0 <= x < n && 0 <= y < n && !visited@[x] && !queued@[x]
                                    ==> !(#[trigger] forest.adjacent(x, y)),
                            forall|k: int|
                                0 <= k < j ==> comp[(#[trigger] neighbours@[k]).0 as int] == root
                                    && (visited@[neighbours@[k].0 as int]
                                    || queued@[neighbours@[k].0 as int]),
                            count_false(queued@) + queue@.len() - qlen0 <= count_false(queued0),
                            forall|k: int| #![trigger queued0[k]]
                                0 <= k < queued0.len() ==> (queued0[k] ==> queued@[k]),
                        decreases neighbours@.len() - j,
                    {
                        let w = neighbours[j];
                        if !visited[w.0] && !queued[w.0] {
                            proof {
                                // Any visited neighbour of `w` other than `v` is
                                // already fully processed, and a processed node's
                                // neighbours are all visited or queued -- which `w`
                                // is not. So the acceptance test cannot fail here.
                                assert forall|u: int|
                                    graph.valid(u) && #[trigger] graph.adjacent(
                                        w.0 as int,
                                        u,
                                    ) implies u == v.0 || !visited@[u] by {
                                    if u != v.0 && visited@[u] {
                                        assert(processed[u]);
                                        assert(graph.adjacent(u, w.0 as int)) by {
                                            assert(graph.entry(u, w.0 as int)
                                                == -graph.entry(w.0 as int, u));
                                        }
                                        assert(visited@[w.0 as int] || queued@[w.0 as int]);
                                    }
                                }
                            }
                            let accepted = joins_no_visited(graph, &visited, w, v);
                            proof {
                                assert(accepted);
                            }
                            if accepted {
                                let ghost forest0 = forest;
                                let ghost comp0 = comp;
                                proof {
                                    lemma_count_false_update(queued@, w.0 as int);
                                    assert(!forest.adjacent(w.0 as int, v.0 as int));
                                    assert(!forest.adjacent(v.0 as int, w.0 as int)) by {
                                        assert(forest.entry(v.0 as int, w.0 as int)
                                            == -forest.entry(w.0 as int, v.0 as int));
                                    }
                                    assert(graph.adjacent(v.0 as int, w.0 as int));
                                    assert(graph.entry(w.0 as int, v.0 as int)
                                        == -graph.entry(v.0 as int, w.0 as int));
                                    assert(graph.entry(v.0 as int, v.0 as int)
                                        == -graph.entry(v.0 as int, v.0 as int));
                                    comp = comp.update(w.0 as int, root);
                                }
                                let ghost queue0 = queue@;
                                forest.add_edge([v, w]);
                                queued[w.0] = true;
                                queue.push(w);
                                proof {
                                    assert(graph.entry(w.0 as int, v.0 as int) != 0);
                                    assert(queue@[queue@.len() - 1] == w);
                                    assert forall|x: int| 0 <= x < n && #[trigger] queued@[x]
                                        implies visited@[x] || (exists|k: int|
                                            head <= k < queue@.len() && (#[trigger] queue@[k]).0
                                                == x) by {
                                        if x == w.0 {
                                            assert(queue@[queue@.len() - 1].0 == x);
                                        } else if !visited@[x] {
                                            let k = choose|k: int|
                                                head <= k < queue0.len() && (#[trigger] queue0[k]).0 == x;
                                            assert(queue@[k] == queue0[k]);
                                        }
                                    }
                                    assert forall|a: int, b: int|
                                        0 <= a < n && 0 <= b < n && #[trigger] forest.adjacent(
                                            a,
                                            b,
                                        ) implies graph.adjacent(a, b) && comp[a] == comp[b] by {
                                        if a == v.0 && b == w.0 {
                                            assert(graph.adjacent(a, b));
                                        } else if a == w.0 && b == v.0 {
                                            assert(graph.entry(a, b) != 0);
                                        } else {
                                            assert(forest.entry(a, b) == forest0.entry(a, b));
                                            assert(forest0.adjacent(a, b));
                                            assert(a != w.0 && b != w.0) by {
                                                assert(!forest0.adjacent(w.0 as int, b));
                                                assert(!forest0.adjacent(w.0 as int, a));
                                                assert(forest0.entry(a, w.0 as int)
                                                    == -forest0.entry(w.0 as int, a));
                                                assert(forest0.entry(b, w.0 as int)
                                                    == -forest0.entry(w.0 as int, b));
                                            }
                                            assert(comp0[a] == comp0[b]);
                                        }
                                    }
                                    assert forall|x: int, y: int|
                                        0 <= x < n && 0 <= y < n && !visited@[x] && !queued@[x]
                                        implies !(#[trigger] forest.adjacent(x, y)) by {
                                        assert(x != v.0 && x != w.0);
                                        if y == w.0 {
                                            assert(!forest0.adjacent(w.0 as int, x));
                                            assert(forest0.entry(x, y)
                                                == -forest0.entry(y, x));
                                        }
                                        assert(forest.entry(x, y) == forest0.entry(x, y));
                                        assert(!forest0.adjacent(x, y));
                                    }
                                    assert forall|x: int|
                                        0 <= x < n && (visited@[x] || queued@[x])
                                        implies (#[trigger] comp[x]).0 < n && (exists|k: int|
                                        0 <= k < roots@.len() && (#[trigger] roots@[k]) == comp[x]) && linked(forest, x, comp[x].0 as int) by {
                                        if x == w.0 {
                                            assert(comp[x] == root);
                                            assert(roots@[roots@.len() - 1] == root);
                                            assert(linked(forest0, v.0 as int, root.0 as int));
                                            lemma_linked_mono(
                                                forest0,
                                                forest,
                                                v.0 as int,
                                                root.0 as int,
                                            );
                                            lemma_linked_refl(forest, x);
                                            lemma_linked_step(forest, x, x, v.0 as int);
                                            lemma_linked_trans(
                                                forest,
                                                x,
                                                v.0 as int,
                                                root.0 as int,
                                            );
                                        } else {
                                            assert(comp[x] == comp0[x]);
                                            assert(linked(forest0, x, comp0[x].0 as int));
                                            lemma_linked_mono(
                                                forest0,
                                                forest,
                                                x,
                                                comp0[x].0 as int,
                                            );
                                        }
                                    }
                                }
                            }
                        }
                        proof {
                            assert(comp[w.0 as int] == root
                                && (visited@[w.0 as int] || queued@[w.0 as int])) by {
                                if visited@[w.0 as int] {
                                    if w.0 != v.0 {
                                        assert(processed[w.0 as int]);
                                        assert(graph.adjacent(w.0 as int, v.0 as int)) by {
                                            assert(graph.entry(w.0 as int, v.0 as int)
                                                == -graph.entry(v.0 as int, w.0 as int));
                                        }
                                        assert(comp[v.0 as int] == comp[w.0 as int]);
                                    }
                                } else {
                                    assert(queued@[w.0 as int]);
                                    let k = choose|k: int|
                                        head <= k < queue@.len() && (#[trigger] queue@[k]).0
                                            == w.0;
                                    assert(comp[queue@[k].0 as int] == root);
                                }
                            }
                        }
                        j = j + 1;
                    }
                    proof {
                        processed = processed.update(v.0 as int, true);
                        assert forall|x: int, w2: int|
                            0 <= x < n && 0 <= w2 < n && processed[x]
                                && #[trigger] graph.adjacent(x, w2)
                            implies comp[w2] == comp[x] && (visited@[w2] || queued@[w2]) by {
                            if x == v.0 {
                                assert(graph.adjacent(v.0 as int, w2));
                                assert(graph.valid(w2));
                                let k = choose|k: int|
                                    0 <= k < neighbours@.len() && (#[trigger] neighbours@[k]).0
                                        == w2;
                                assert(comp[(#[trigger] neighbours@[k]).0 as int] == root
                                    && (visited@[neighbours@[k].0 as int]
                                    || queued@[neighbours@[k].0 as int]));
                            }
                        }
                    }
                    head = head + 1;
                }
            }
            root_cand = root_cand + 1;
        }
        proof {
            assert forall|x: int, y: int|
                0 <= x < n && 0 <= y < n && #[trigger] graph.adjacent(x, y)
                implies comp[x] == comp[y] by {
                assert(visited@[x] && processed[x]);
            }
            assert forall|v: int|
                0 <= v < n implies (#[trigger] comp[v]).0 < n && (exists|k: int|
                0 <= k < roots@.len() && (#[trigger] roots@[k]) == comp[v]) && linked(
                    forest,
                    v,
                    comp[v].0 as int,
                ) by {
                assert(visited@[v]);
            }
        }
        proof {
            assert forall|k: int| 0 <= k < queued@.len() implies #[trigger] queued@[k] by {
                assert(visited@[k]);
            }
            lemma_count_false_none(queued@);
        }
        let result = SpanningForest { forest, roots, comp: Ghost(comp) };
        proof {
            assert(result.forest == forest && result.roots@ == roots@ && result.comp@ == comp);
            assert(result.nodes() == n);
            assert forall|v: int|
                0 <= v < result.nodes() implies (#[trigger] result.comp@[v]).0 < result.nodes()
                    && result.root_listed(result.comp@[v])
                    && linked(result.forest, v, result.comp@[v].0 as int) by {
                assert(comp[v].0 < n);
                let k = choose|k: int|
                    0 <= k < roots@.len() && (#[trigger] roots@[k]) == comp[v];
                assert(result.roots@[k] == result.comp@[v]);
                assert(linked(forest, v, comp[v].0 as int));
            }
            assert forall|x: int, y: int|
                result.valid(x) && result.valid(y) && #[trigger] result.forest.adjacent(x, y)
                implies result.comp@[x] == result.comp@[y] by {
                assert(forest.adjacent(x, y));
            }
            assert(result.wf());
            assert forall|a: int, b: int|
                result.valid(a) && result.valid(b) && #[trigger] result.tree_adjacent(a, b)
                implies graph.adjacent(a, b) by {
                assert(forest.adjacent(a, b));
            }
            assert forall|a: int, b: int|
                result.valid(a) && result.valid(b) && #[trigger] graph.adjacent(a, b)
                implies result.component_of(a) == result.component_of(b) by {
                assert(comp[a] == comp[b]);
            }
        }
        result
    }

    /// Registers a freshly appended graph node as its own one-node tree.
    pub fn next_node(&mut self)
        requires
            old(self).wf(),
            old(self).nodes() < usize::MAX,
        ensures
            final(self).wf(),
            final(self).nodes() == old(self).nodes() + 1,
            final(self).roots_len() == old(self).roots_len() + 1,
            forall|x: int, y: int|
                old(self).valid(x) && old(self).valid(y)
                    ==> (#[trigger] final(self).tree_adjacent(x, y)
                        == old(self).tree_adjacent(x, y)),
            forall|x: int|
                final(self).valid(x)
                    ==> !(#[trigger] final(self).tree_adjacent(x, old(self).nodes() as int)),
            forall|x: int|
                final(self).valid(x)
                    ==> !(#[trigger] final(self).tree_adjacent(old(self).nodes() as int, x)),
            forall|x: int|
                old(self).valid(x) ==> #[trigger] final(self).component_of(x)
                    == old(self).component_of(x),
            final(self).component_of(old(self).nodes() as int)
                == NodeIndex(old(self).nodes() as usize),
    {
        let ghost forest0 = self.forest;
        let new_node = self.forest.next_node();
        self.roots.push(new_node);
        proof {
            self.comp@ = self.comp@.push(new_node);
            let n0 = old(self).nodes() as int;
            lemma_linked_refl(self.forest, n0);
            assert forall|v: int|
                0 <= v < self.nodes() implies (#[trigger] self.comp@[v]).0 < self.nodes()
                    && self.root_listed(self.comp@[v])
                    && linked(self.forest, v, self.comp@[v].0 as int) by {
                if v < n0 {
                    assert(old(self).root_listed(old(self).comp@[v]));
                    let k = choose|k: int|
                        0 <= k < old(self).roots@.len() && old(self).roots@[k] == old(
                            self,
                        ).comp@[v];
                    assert(self.roots@[k] == self.comp@[v]);
                    assert(linked(forest0, v, self.comp@[v].0 as int));
                    lemma_linked_mono(forest0, self.forest, v, self.comp@[v].0 as int);
                } else {
                    assert(self.roots@[self.roots@.len() - 1] == new_node);
                }
            }
            assert forall|x: int, y: int|
                self.valid(x) && self.valid(y) && #[trigger] self.forest.adjacent(x, y)
                implies self.comp@[x] == self.comp@[y] by {
                if x < n0 && y < n0 {
                    assert(forest0.adjacent(x, y));
                } else {
                    assert(!self.forest.adjacent(x, y));
                }
            }
        }
    }

    /// Joins the trees of the two endpoints. Returns `true` exactly when
    /// the endpoints lay in different trees: the edge became a tree edge,
    /// the second endpoint's root left the root list, and its whole tree
    /// moved to the first endpoint's component. On `false` the edge is a
    /// chord that would close a cycle, and nothing changes.
    pub fn add_edge(&mut self, endpoints: [NodeIndex; 2]) -> (merged: bool)
        requires
            old(self).wf(),
            old(self).valid(endpoints[0].0 as int),
            old(self).valid(endpoints[1].0 as int),
            endpoints[0].0 != endpoints[1].0,
        ensures
            final(self).wf(),
            final(self).nodes() == old(self).nodes(),
            merged == (old(self).component_of(endpoints[0].0 as int) != old(self).component_of(
                endpoints[1].0 as int,
            )),
            !merged ==> *final(self) == *old(self),
            merged ==> final(self).roots_len() == old(self).roots_len() - 1,
            merged ==> final(self).tree_adjacent(endpoints[0].0 as int, endpoints[1].0 as int),
            merged ==> forall|x: int, y: int|
                old(self).valid(x) && old(self).valid(y)
                    && !(x == endpoints[0].0 && y == endpoints[1].0)
                    && !(x == endpoints[1].0 && y == endpoints[0].0)
                    ==> (#[trigger] final(self).tree_adjacent(x, y)
                        == old(self).tree_adjacent(x, y)),
            forall|v: int|
                old(self).valid(v) ==> #[trigger] final(self).component_of(v) == if old(
                    self,
                ).component_of(v) == old(self).component_of(endpoints[1].0 as int) && merged {
                    old(self).component_of(endpoints[0].0 as int)
                } else {
                    old(self).component_of(v)
                },
    {
        let ghost a = endpoints[0].0 as int;
        let ghost b = endpoints[1].0 as int;
        let ia = self.find_root(endpoints[0]);
        let ib = self.find_root(endpoints[1]);
        let root_a = self.roots[ia];
        let root_b = self.roots[ib];
        if root_a.0 != root_b.0 {
            self.roots.remove(ib);
            let ghost roots0 = old(self).roots@;
            let ghost forest0 = self.forest;
            let ghost comp0 = old(self).comp@;
            proof {
                assert(!old(self).forest.adjacent(a, b)) by {
                    if old(self).forest.adjacent(a, b) {
                        assert(comp0[a] == comp0[b]);
                    }
                }
            }
            self.forest.add_edge(endpoints);
            proof {
                roots0.remove_ensures(ib as int);
                self.comp@ = Seq::new(
                    comp0.len(),
                    |v: int|
                        if comp0[v] == root_b {
                            root_a
                        } else {
                            comp0[v]
                        },
                );
                let n = self.nodes() as int;
                assert(self.forest.entry(a, b) == 1);
                assert(root_a == comp0[a] && root_b == comp0[b]);
                assert forall|k: int|
                    0 <= k < self.roots@.len() implies (#[trigger] self.roots@[k]).0 < n
                        && self.comp@[self.roots@[k].0 as int] == self.roots@[k] by {
                    let k0: int = if k < ib {
                        k
                    } else {
                        k + 1
                    };
                    assert(self.roots@[k] == roots0[k0]);
                    assert(comp0[roots0[k0].0 as int] == roots0[k0]);
                    assert(roots0[k0].0 != root_b.0);
                    assert(roots0[k0] != root_b);
                }
                assert forall|k1: int, k2: int|
                    0 <= k1 < k2 < self.roots@.len()
                    implies self.roots@[k1].0 != self.roots@[k2].0 by {
                    let k10: int = if k1 < ib {
                        k1
                    } else {
                        k1 + 1
                    };
                    let k20: int = if k2 < ib {
                        k2
                    } else {
                        k2 + 1
                    };
                    assert(self.roots@[k1] == roots0[k10] && self.roots@[k2] == roots0[k20]);
                }
                assert forall|v: int|
                    0 <= v < n implies (#[trigger] self.comp@[v]).0 < n && self.root_listed(
                        self.comp@[v],
                    ) && linked(self.forest, v, self.comp@[v].0 as int) by {
                    assert(old(self).root_listed(comp0[v]));
                    let k0 = choose|k0: int|
                        0 <= k0 < roots0.len() && (#[trigger] roots0[k0]) == comp0[v];
                    if comp0[v] == root_b {
                        assert(self.comp@[v] == root_a);
                        let ka = choose|ka: int|
                            0 <= ka < roots0.len() && (#[trigger] roots0[ka]) == root_a;
                        assert(ka != ib);
                        if ka < ib {
                            assert(self.roots@[ka] == root_a);
                        } else {
                            assert(self.roots@[ka - 1] == root_a);
                        }
                        assert(linked(forest0, v, root_b.0 as int));
                        lemma_linked_mono(forest0, self.forest, v, root_b.0 as int);
                        assert(linked(forest0, b, root_b.0 as int));
                        lemma_linked_mono(forest0, self.forest, b, root_b.0 as int);
                        lemma_linked_sym(self.forest, b, root_b.0 as int);
                        assert(self.forest.adjacent(b, a)) by {
                            assert(self.forest.entry(b, a) == -self.forest.entry(a, b));
                        }
                        lemma_linked_step(self.forest, root_b.0 as int, b, a);
                        assert(linked(forest0, a, root_a.0 as int));
                        lemma_linked_mono(forest0, self.forest, a, root_a.0 as int);
                        lemma_linked_trans(self.forest, root_b.0 as int, a, root_a.0 as int);
                        lemma_linked_trans(
                            self.forest,
                            v,
                            root_b.0 as int,
                            root_a.0 as int,
                        );
                    } else {
                        assert(self.comp@[v] == comp0[v]);
                        assert(roots0[k0] != root_b);
                        assert(k0 != ib);
                        if k0 < ib {
                            assert(self.roots@[k0] == comp0[v]);
                        } else {
                            assert(self.roots@[k0 - 1] == comp0[v]);
                        }
                        assert(linked(forest0, v, comp0[v].0 as int));
                        lemma_linked_mono(forest0, self.forest, v, comp0[v].0 as int);
                    }
                }
                assert forall|x: int, y: int|
                    self.valid(x) && self.valid(y) && #[trigger] self.forest.adjacent(x, y)
                    implies self.comp@[x] == self.comp@[y] by {
                    if (x == a && y == b) || (x == b && y == a) {
                        assert(self.comp@[a] == root_a && self.comp@[b] == root_a);
                    } else {
                        assert(self.forest.entry(x, y) == forest0.entry(x, y));
                        assert(forest0.adjacent(x, y));
                        assert(comp0[x] == comp0[y]);
                    }
                }
            }
            true
        } else {
            proof {
                assert(old(self).component_of(a) == old(self).component_of(b));
            }
            false
        }
    }

    /// The position in the root list of the root representing `node`'s
    /// tree. Every node of a well-formed forest has one.
    fn find_root(&self, node: NodeIndex) -> (r: usize)
        requires
            self.wf(),
            self.valid(node.0 as int),
        ensures
            r < self.roots@.len(),
            self.roots@[r as int] == self.component_of(node.0 as int),
    {
        let order = bfs_nodes_as_undirected(&self.forest, node);
        proof {
            assert(linked(self.forest, node.0 as int, self.comp@[node.0 as int].0 as int));
            lemma_linked_nodes_listed(
                self.forest,
                order@,
                node,
                self.comp@[node.0 as int].0 as int,
            );
        }
        let count = order.len();
        let mut k: usize = 0;
        while k < count
            invariant
                self.wf(),
                self.valid(node.0 as int),
                count == order@.len(),
                k <= count,
                order@[0] == node,
                forall|k2: int|
                    0 <= k2 < count ==> self.forest.valid((#[trigger] order@[k2]).0 as int)
                        && linked(self.forest, node.0 as int, order@[k2].0 as int),
                exists|l: int|
                    0 <= l < count && (#[trigger] order@[l]).0
                        == self.comp@[node.0 as int].0 as int,
                forall|k2: int|
                    0 <= k2 < k ==> !self.root_listed(#[trigger] order@[k2]),
                forall|k2: int|
                    0 <= k2 < k ==> (#[trigger] order@[k2]).0
                        != self.comp@[node.0 as int].0,
            decreases count - k,
        {
            let candidate = order[k];
            let mut i: usize = 0;
            let root_count = self.roots.len();
            while i < root_count
                invariant
                    self.wf(),
                    self.valid(node.0 as int),
                    count == order@.len(),
                    k < count,
                    root_count == self.roots@.len(),
                    i <= root_count,
                    candidate == order@[k as int],
                    self.forest.valid(candidate.0 as int),
                    linked(self.forest, node.0 as int, candidate.0 as int),
                    forall|i2: int|
                        0 <= i2 < i ==> (#[trigger] self.roots@[i2]).0 != candidate.0,
                decreases root_count - i,
            {
                if self.roots[i].0 == candidate.0 {
                    proof {
                        // The candidate is tree-linked to `node`, so they
                        // share a component; a root represents itself, so
                        // this root is exactly `node`'s component.
                        let p = choose|p: Seq<int>|
                            is_walk(self.forest, p, node.0 as int, candidate.0 as int);
                        self.lemma_comp_constant_on_walk(p, p.len() - 1);
                        assert(self.comp@[candidate.0 as int] == self.roots@[i as int]);
                    }
                    return i;
                }
                i = i + 1;
            }
            proof {
                assert(!self.root_listed(candidate)) by {
                    if self.root_listed(candidate) {
                        let l = choose|l: int|
                            0 <= l < self.roots@.len() && self.roots@[l] == candidate;
                        assert(self.roots@[l].0 == candidate.0);
                    }
                }
                assert(candidate.0 != self.comp@[node.0 as int].0) by {
                    if candidate.0 == self.comp@[node.0 as int].0 {
                        assert(self.root_listed(self.comp@[node.0 as int]));
                        let l = choose|l: int|
                            0 <= l < self.roots@.len() && self.roots@[l] == self.comp@[node.0 as int];
                        assert(self.roots@[l].0 == candidate.0);
                    }
                }
            }
            k = k + 1;
        }
        proof {
            let l = choose|l: int|
                0 <= l < count && (#[trigger] order@[l]).0 == self.comp@[node.0 as int].0 as int;
            assert(order@[l].0 != self.comp@[node.0 as int].0);
            assert(false);
        }
        0
    }

    /// Whether the endpoints are joined by a tree edge, in either direction.
    pub fn has_edge(&self, endpoints: [NodeIndex; 2]) -> (r: bool)
        requires
            self.wf(),
            self.valid(endpoints[0].0 as int),
            self.valid(endpoints[1].0 as int),
        ensures
            r == self.tree_adjacent(endpoints[0].0 as int, endpoints[1].0 as int),
    {
        self.forest.has_edge(endpoints)
    }

    /// The ordered tree path connecting the endpoints: a walk of tree
    /// edges leading from the second endpoint back to the first. The walk
    /// exists exactly when the endpoints lie in one tree; across trees the
    /// result is `None`.
    #[verifier::rlimit(100)]
    #[verifier::spinoff_prover]
    pub fn find_path(&self, endpoints: [NodeIndex; 2]) -> (r: Option<Vec<[NodeIndex; 2]>>)
        requires
            self.wf(),
            self.valid(endpoints[0].0 as int),
            self.valid(endpoints[1].0 as int),
            endpoints[0].0 != endpoints[1].0,
        ensures
            r is Some == self.tree_linked(endpoints[0].0 as int, endpoints[1].0 as int),
            r matches Some(path) ==> self.tree_walk(path@, endpoints[0], endpoints[1]),
            r matches Some(path) ==> Self::walk_nodes_distinct(path@),
            r matches Some(path) ==> forall|t1: int, t2: int|
                0 <= t1 < t2 < path@.len() ==> !((#[trigger] path@[t1])[0].0
                    == (#[trigger] path@[t2])[0].0 && path@[t1][1].0 == path@[t2][1].0) && !(
                path@[t1][0].0 == path@[t2][1].0 && path@[t1][1].0 == path@[t2][0].0),
    {
        let start = endpoints[0];
        let end = endpoints[1];
        let n = self.forest.nodes_count();
        let order = bfs_nodes_as_undirected(&self.forest, start);
        let mut parent = make_indices(n);
        let mut depth = make_indices(n);
        // Parents along the breadth-first tree: order[k] was first reached
        // from some earlier order entry it is adjacent to.
        let count = order.len();
        let mut k: usize = 1;
        let ghost m = self.forest;
        while k < count
            invariant
                self.wf(),
                m == self.forest,
                count == order@.len(),
                1 <= k,
                k <= count || count == 0,
                n == m.nodes(),
                parent@.len() == n,
                depth@.len() == n,
                order@.len() >= 1,
                order@[0] == start,
                self.valid(start.0 as int),
                forall|k2: int|
                    0 <= k2 < count ==> m.valid((#[trigger] order@[k2]).0 as int),
                forall|k1: int, k2: int|
                    0 <= k1 < k2 < count ==> order@[k1].0 != order@[k2].0,
                forall|k2: int, w: int|
                    0 <= k2 < count && m.valid(w) && #[trigger] m.adjacent(order@[k2].0 as int, w)
                        ==> exists|l: int| 0 <= l < count && (#[trigger] order@[l]).0 == w,
                forall|k2: int|
                    0 <= k2 < count ==> linked(m, start.0 as int, (#[trigger] order@[k2]).0 as int),
                count <= n,
                forall|k2: int|
                    1 <= k2 < count ==> exists|l2: int|
                        0 <= l2 < k2 && m.adjacent(
                            (#[trigger] order@[k2]).0 as int,
                            order@[l2].0 as int,
                        ),
                depth@[start.0 as int] == 0,
                forall|k2: int|
                    1 <= k2 < k ==> {
                        let x = (#[trigger] order@[k2]).0 as int;
                        &&& parent@[x] < n
                        &&& m.adjacent(x, parent@[x] as int)
                        &&& depth@[x] == depth@[parent@[x] as int] + 1
                        &&& depth@[x] <= k2
                        &&& exists|l: int|
                            0 <= l < k2 && (#[trigger] order@[l]).0 == parent@[x]
                    },
            decreases count - k,
        {
            let x = order[k];
            // Find the first earlier order entry adjacent to x; breadth-
            // first discovery guarantees one.
            let mut l: usize = 0;
            let mut found = false;
            while l < k
                invariant
                    self.wf(),
                    m == self.forest,
                    count == order@.len(),
                    k < count,
                    l <= k,
                    n == m.nodes(),
                    parent@.len() == n,
                    depth@.len() == n,
                    x == order@[k as int],
                    m.valid(x.0 as int),
                    forall|k2: int|
                        0 <= k2 < count ==> m.valid((#[trigger] order@[k2]).0 as int),
                    forall|k2: int|
                        1 <= k2 < k ==> {
                            let x2 = (#[trigger] order@[k2]).0 as int;
                            &&& parent@[x2] < n
                            &&& m.adjacent(x2, parent@[x2] as int)
                            &&& depth@[x2] == depth@[parent@[x2] as int] + 1
                            &&& depth@[x2] <= k2
                            &&& exists|l2: int|
                                0 <= l2 < k2 && (#[trigger] order@[l2]).0 == parent@[x2]
                        },
                    count <= n,
                    depth@[start.0 as int] == 0,
                    order@[0] == start,
                    forall|k1: int, k2: int|
                        0 <= k1 < k2 < count ==> order@[k1].0 != order@[k2].0,
                    found ==> {
                        let x2 = x.0 as int;
                        &&& parent@[x2] < n
                        &&& m.adjacent(x2, parent@[x2] as int)
                        &&& depth@[x2] == depth@[parent@[x2] as int] + 1
                        &&& depth@[x2] <= k
                        &&& exists|l2: int|
                            0 <= l2 < k && (#[trigger] order@[l2]).0 == parent@[x2]
                    },
                    !found ==> forall|l2: int|
                        0 <= l2 < l ==> !m.adjacent(
                            x.0 as int,
                            (#[trigger] order@[l2]).0 as int,
                        ) || depth@[order@[l2].0 as int] >= n,
                decreases k - l,
            {
                if !found {
                    let candidate = order[l];
                    if self.forest.has_edge([x, candidate]) {
                        let d = depth[candidate.0];
                        if d < n {
                            parent[x.0] = candidate.0;
                            depth[x.0] = d + 1;
                            proof {
                                assert(x.0 != candidate.0) by {
                                    assert(m.entry(x.0 as int, x.0 as int)
                                        == -m.entry(x.0 as int, x.0 as int));
                                }
                                assert(order@[l as int].0 == parent@[x.0 as int]);
                                assert(depth@[candidate.0 as int] <= l as int) by {
                                    if l == 0 {
                                        assert(order@[0] == start);
                                    }
                                }
                            }
                            found = true;
                        }
                    }
                }
                l = l + 1;
            }
            proof {
                // Breadth-first order discovers each node from an earlier
                // neighbour, whose recorded depth is below its position and
                // so below the node count: the scan cannot come up empty.
                if !found {
                    let l0 = choose|l0: int|
                        0 <= l0 < k && m.adjacent(
                            (#[trigger] order@[k as int]).0 as int,
                            order@[l0].0 as int,
                        );
                    assert(depth@[order@[l0].0 as int] < n) by {
                        if l0 == 0 {
                            assert(order@[0] == start);
                        } else {
                            assert(depth@[order@[l0].0 as int] <= l0);
                        }
                    }
                    assert(m.adjacent(order@[k as int].0 as int, order@[l0].0 as int));
                    assert(false);
                }
            }
            k = k + 1;
        }
        // Locate the second endpoint in the traversal.
        let mut at_end: usize = 0;
        let mut present = false;
        let mut k2: usize = 0;
        while k2 < count && !present
            invariant
                count == order@.len(),
                k2 <= count,
                present ==> at_end < count && order@[at_end as int].0 == end.0,
                !present ==> forall|l: int| 0 <= l < k2 ==> (#[trigger] order@[l]).0 != end.0,
            decreases count - k2,
        {
            if order[k2].0 == end.0 {
                at_end = k2;
                present = true;
            }
            k2 = k2 + 1;
        }
        if !present {
            proof {
                if self.tree_linked(start.0 as int, end.0 as int) {
                    lemma_linked_nodes_listed(self.forest, order@, start, end.0 as int);
                    let l = choose|l: int|
                        0 <= l < order@.len() && (#[trigger] order@[l]).0 == end.0 as int;
                    assert(order@[l].0 != end.0);
                }
            }
            return None;
        }
        proof {
            assert(linked(m, start.0 as int, end.0 as int));
        }
        let mut path: Vec<[NodeIndex; 2]> = Vec::new();
        let mut current: usize = end.0;
        let ghost at_idx = at_end as int;
        proof {
            assert(order@[at_idx].0 == current);
            assert(at_idx != 0);
        }
        let ghost mut cur_ord: int = at_idx;
        while current != start.0
            invariant
                self.wf(),
                m == self.forest,
                n == m.nodes(),
                parent@.len() == n,
                depth@.len() == n,
                count == order@.len(),
                current < n,
                order@[0] == start,
                start.0 < n,
                end.0 < n,
                0 <= cur_ord < count,
                order@[cur_ord].0 == current,
                forall|k3: int|
                    1 <= k3 < count ==> {
                        let x2 = (#[trigger] order@[k3]).0 as int;
                        &&& parent@[x2] < n
                        &&& m.adjacent(x2, parent@[x2] as int)
                        &&& depth@[x2] == depth@[parent@[x2] as int] + 1
                        &&& exists|l2: int|
                            0 <= l2 < k3 && (#[trigger] order@[l2]).0 == parent@[x2]
                    },
                forall|k1: int, k3: int|
                    0 <= k1 < k3 < count ==> order@[k1].0 != order@[k3].0,
                depth@[start.0 as int] == 0,
                path@.len() == 0 ==> current == end.0,
                path@.len() >= 1 ==> path@[0][0].0 == end.0,
                path@.len() >= 1 ==> path@[path@.len() - 1][1].0 == current,
                path@.len() >= 1 ==> depth@[path@[path@.len() - 1][0].0 as int]
                    > depth@[current as int],
                forall|t1: int, t2: int|
                    0 <= t1 < t2 < path@.len()
                        ==> depth@[(#[trigger] path@[t1])[0].0 as int]
                            > depth@[(#[trigger] path@[t2])[0].0 as int],
                forall|t: int|
                    0 <= t < path@.len() ==> (#[trigger] path@[t])[0].0 < n
                        && path@[t][1].0 < n
                        && depth@[path@[t][0].0 as int] == depth@[path@[t][1].0 as int] + 1,
                forall|i: int|
                    0 <= i < path@.len() ==> self.valid((#[trigger] path@[i])[0].0 as int)
                        && self.valid(path@[i][1].0 as int)
                        && self.tree_adjacent(path@[i][0].0 as int, path@[i][1].0 as int),
                forall|i: int|
                    0 <= i < path@.len() - 1 ==> (#[trigger] path@[i])[1].0 == path@[i + 1][0].0,
            decreases cur_ord,
        {
            proof {
                assert(cur_ord != 0);
            }
            let p = parent[current];
            let ghost path0 = path@;
            path.push([NodeIndex(current), NodeIndex(p)]);
            proof {
                let x2 = order@[cur_ord].0 as int;
                assert(m.adjacent(x2, parent@[x2] as int));
                assert(depth@[x2] == depth@[parent@[x2] as int] + 1);
                assert(path@[path@.len() - 1][0].0 == current);
                assert(path@[path@.len() - 1][1].0 == p);
                assert forall|t1: int, t2: int|
                    0 <= t1 < t2 < path@.len()
                    implies depth@[(#[trigger] path@[t1])[0].0 as int]
                        > depth@[(#[trigger] path@[t2])[0].0 as int] by {
                    if t2 < path0.len() {
                        assert(path@[t1] == path0[t1] && path@[t2] == path0[t2]);
                    } else {
                        assert(path@[t2][0].0 == current);
                        assert(path@[t1] == path0[t1]);
                        if t1 == path0.len() - 1 {
                        } else {
                            assert(depth@[path0[t1][0].0 as int]
                                > depth@[path0[path0.len() - 1][0].0 as int]);
                        }
                    }
                }
                assert forall|i: int|
                    0 <= i < path@.len() - 1
                    implies (#[trigger] path@[i])[1].0 == path@[i + 1][0].0 by {
                    if i < path0.len() - 1 {
                        assert(path@[i] == path0[i]);
                        assert(path@[i + 1] == path0[i + 1]);
                    } else {
                        assert(path@[i] == path0[i]);
                    }
                }
                let l2 = choose|l2: int|
                    0 <= l2 < cur_ord && (#[trigger] order@[l2]).0 == parent@[x2];
                cur_ord = l2;
            }
            current = p;
        }
        proof {
            assert(path@.len() >= 1) by {
                if path@.len() == 0 {
                    assert(current == end.0 && current == start.0);
                }
            }
            assert(self.tree_walk(path@, start, end));
            assert(path@[path@.len() - 1][1].0 == start.0);
            assert forall|t: int|
                0 <= t < path@.len()
                implies (#[trigger] path@[t])[0].0 != path@[path@.len() - 1][1].0 by {
                assert(depth@[path@[t][0].0 as int] >= 1);
                assert(depth@[start.0 as int] == 0);
            }
            assert(Self::walk_nodes_distinct(path@));
            assert forall|t1: int, t2: int|
                0 <= t1 < t2 < path@.len()
                implies !((#[trigger] path@[t1])[0].0 == (#[trigger] path@[t2])[0].0
                    && path@[t1][1].0 == path@[t2][1].0) && !(path@[t1][0].0 == path@[t2][1].0
                    && path@[t1][1].0 == path@[t2][0].0) by {
                assert(depth@[path@[t1][0].0 as int] > depth@[path@[t2][0].0 as int]);
                if path@[t1][0].0 == path@[t2][1].0 && path@[t1][1].0 == path@[t2][0].0 {
                    assert(depth@[path@[t1][0].0 as int]
                        == depth@[path@[t1][1].0 as int] + 1);
                    assert(depth@[path@[t2][0].0 as int]
                        == depth@[path@[t2][1].0 as int] + 1);
                }
            }
        }
        Some(path)
    }

}

/// Whether every neighbour of `candidate` other than `current` is still
/// unvisited: the acceptance test a discovered edge must pass before it may
/// join the growing tree.
fn joins_no_visited(
    graph: &MatrixGraph,
    visited: &Vec<bool>,
    candidate: NodeIndex,
    current: NodeIndex,
) -> (r: bool)
    requires
        graph.wf(),
        graph.valid(candidate.0 as int),
        visited@.len() == graph.nodes(),
    ensures
        r == forall|u: int|
            graph.valid(u) && #[trigger] graph.adjacent(candidate.0 as int, u)
                ==> u == current.0 || !visited@[u],
{
    let neighbours = graph.neighbour_nodes(candidate);
    let mut j: usize = 0;
    while j < neighbours.len()
        invariant
            j <= neighbours@.len(),
            graph.wf(),
            graph.valid(candidate.0 as int),
            visited@.len() == graph.nodes(),
            forall|k: int|
                0 <= k < neighbours@.len()
                    ==> graph.valid((#[trigger] neighbours@[k]).0 as int)
                        && graph.adjacent(candidate.0 as int, neighbours@[k].0 as int),
            forall|u: int|
                graph.valid(u) && #[trigger] graph.adjacent(candidate.0 as int, u)
                    ==> exists|k: int|
                    0 <= k < neighbours@.len() && (#[trigger] neighbours@[k]).0 == u,
            forall|k: int|
                0 <= k < j ==> ((#[trigger] neighbours@[k]).0 == current.0
                    || !visited@[neighbours@[k].0 as int]),
        decreases neighbours@.len() - j,
    {
        let u = neighbours[j];
        if u.0 != current.0 && visited[u.0] {
            proof {
                assert(graph.adjacent(candidate.0 as int, u.0 as int));
                assert(visited@[u.0 as int]);
            }
            return false;
        }
        j = j + 1;
    }
    proof {
        assert forall|u: int|
            graph.valid(u) && #[trigger] graph.adjacent(candidate.0 as int, u)
            implies u == current.0 || !visited@[u] by {
            let k = choose|k: int|
                0 <= k < neighbours@.len() && (#[trigger] neighbours@[k]).0 == u;
            assert(neighbours@[k].0 == current.0 || !visited@[neighbours@[k].0 as int]);
        }
    }
    true
}

} // verus!
