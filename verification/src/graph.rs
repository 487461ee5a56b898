//! The topology layer: a signed-incidence graph, its spanning forest, and
//! the ordered edge list, from which the fundamental-cycle (loop) matrix is
//! derived anew on every change.
//!
//! Each edge in the graph but absent from the forest (a chord) closes
//! exactly one cycle: the tree path between its endpoints plus the chord
//! itself. One loop-matrix row is written per chord, with `+1` in the
//! chord's own column and `+1`/`-1` in the column of every tree edge of the
//! cycle, by the direction in which the cycle traverses it.

use vstd::prelude::*;
use crate::matrix::{MatrixGraph, NodeIndex};
use crate::spanning_forest::SpanningForest;

verus! {

/// Whether any edge of `list` joins the same unordered pair as `e`.
fn pair_in_list_search(list: &Vec<[NodeIndex; 2]>, e: [NodeIndex; 2]) -> (r: bool)
    ensures
        r == pair_in_list(list@, e[0].0 as int, e[1].0 as int),
{
    let count = list.len();
    let mut k: usize = 0;
    while k < count
        invariant
            k <= count,
            count == list@.len(),
            forall|k2: int|
                0 <= k2 < k ==> !pair_matches(#[trigger] list@[k2], e[0].0 as int, e[1].0 as int),
        decreases count - k,
    {
        let o = list[k];
        if (o[0].0 == e[0].0 && o[1].0 == e[1].0) || (o[0].0 == e[1].0 && o[1].0 == e[0].0) {
            proof {
                assert(pair_matches(list@[k as int], e[0].0 as int, e[1].0 as int));
            }
            return true;
        }
        k = k + 1;
    }
    false
}

/// Whether the stored edge `e` joins the unordered node pair `{a, b}`.
pub open spec fn pair_matches(e: [NodeIndex; 2], a: int, b: int) -> bool {
    (e[0].0 == a && e[1].0 == b) || (e[0].0 == b && e[1].0 == a)
}

/// Whether some edge of `s` joins the unordered node pair `{a, b}`.
pub open spec fn pair_in_list(s: Seq<[NodeIndex; 2]>, a: int, b: int) -> bool {
    exists|k: int| 0 <= k < s.len() && pair_matches(#[trigger] s[k], a, b)
}

/// The walk contains the directed edge `a -> b`.
pub open spec fn walk_hits(walk: Seq<[NodeIndex; 2]>, a: int, b: int) -> bool {
    exists|t: int| 0 <= t < walk.len() && (#[trigger] walk[t])[0].0 == a && walk[t][1].0 == b
}

/// List entry `c` is the first occurrence of its unordered node pair.
pub open spec fn first_of_pair(s: Seq<[NodeIndex; 2]>, c: int) -> bool {
    forall|k: int|
        0 <= k < c ==> !pair_matches(#[trigger] s[k], s[c][0].0 as int, s[c][1].0 as int)
}

/// The row is the signed incidence of one fundamental cycle: `+1` in its
/// own chord column `j`, and in every other column the direction in which
/// the cycle's tree walk traverses that column's edge -- `+1` along the
/// stored orientation, `-1` against it, `0` when the walk does not use the
/// edge or the column merely repeats an earlier pair.
pub open spec fn row_encodes_cycle(
    row: Seq<i8>,
    j: int,
    walk: Seq<[NodeIndex; 2]>,
    s: Seq<[NodeIndex; 2]>,
) -> bool {
    &&& row[j] == 1i8
    &&& forall|c: int|
        0 <= c < row.len() && c != j ==> (#[trigger] row[c]) == (if first_of_pair(s, c)
            && walk_hits(walk, s[c][0].0 as int, s[c][1].0 as int) {
            1i8
        } else if first_of_pair(s, c) && walk_hits(walk, s[c][1].0 as int, s[c][0].0 as int) {
            -1i8
        } else {
            0i8
        })
}

/// A signed-incidence graph with its spanning forest, ordered edge list and
/// derived loop matrix.
pub struct CircuitGraph {
    graph: MatrixGraph,
    spanning: SpanningForest,
    edges: Vec<[NodeIndex; 2]>,
    loops: Vec<Vec<i8>>,
    loops_transposed: Vec<Vec<i8>>,
}

impl CircuitGraph {
    /// How many nodes the graph has.
    pub closed spec fn nodes(self) -> nat {
        self.graph.nodes()
    }

    /// `v` names a node of this graph.
    pub open spec fn valid(self, v: int) -> bool {
        0 <= v < self.nodes()
    }

    /// The ordered edge list; an edge's position is its loop-matrix column.
    pub closed spec fn edge_list(self) -> Seq<[NodeIndex; 2]> {
        self.edges@
    }

    /// `a` and `b` are joined by an edge in some direction.
    pub closed spec fn adjacent(self, a: int, b: int) -> bool {
        self.graph.adjacent(a, b)
    }

    /// `a` and `b` are joined by a spanning-forest edge.
    pub closed spec fn tree_adjacent(self, a: int, b: int) -> bool {
        self.spanning.tree_adjacent(a, b)
    }

    /// `a` and `b` lie in one connected component: their spanning trees
    /// share a root.
    pub closed spec fn same_component(self, a: int, b: int) -> bool {
        self.spanning.component_of(a) == self.spanning.component_of(b)
    }

    /// The row is the signed incidence of the fundamental cycle of chord
    /// `j`: some simple walk of spanning-forest edges leads from the
    /// chord's head back to its tail, and the row holds `+1` in the chord
    /// column, the traversal sign in each first-occurrence column the walk
    /// uses, and `0` everywhere else.
    pub closed spec fn chord_cycle_ok(self, row: Seq<i8>, j: int) -> bool {
        exists|w: Seq<[NodeIndex; 2]>|
            self.spanning.tree_walk(w, self.edges@[j][0], self.edges@[j][1])
                && SpanningForest::walk_nodes_distinct(w) && row_encodes_cycle(
                row,
                j,
                w,
                self.edges@,
            )
    }

    /// The cycle witness only reads the forest and the edge list: it
    /// carries over to any state that keeps both.
    proof fn lemma_chord_cycle_transfer(s1: Self, s2: Self, row: Seq<i8>, j: int)
        requires
            s1.chord_cycle_ok(row, j),
            s2.spanning == s1.spanning,
            s2.edges == s1.edges,
        ensures
            s2.chord_cycle_ok(row, j),
    {
        let w = choose|w: Seq<[NodeIndex; 2]>|
            s1.spanning.tree_walk(w, s1.edges@[j][0], s1.edges@[j][1])
                && SpanningForest::walk_nodes_distinct(w) && row_encodes_cycle(
                row,
                j,
                w,
                s1.edges@,
            );
        assert(s2.spanning.tree_walk(w, s2.edges@[j][0], s2.edges@[j][1])
            && SpanningForest::walk_nodes_distinct(w) && row_encodes_cycle(row, j, w, s2.edges@));
    }

    /// The cycle witness survives growing the forest by fresh nodes: old
    /// tree edges and old node validity are kept.
    proof fn lemma_chord_cycle_grow(s1: Self, s2: Self, row: Seq<i8>, j: int)
        requires
            s1.chord_cycle_ok(row, j),
            s2.edges == s1.edges,
            s1.spanning.nodes() <= s2.spanning.nodes(),
            forall|x: int, y: int|
                s1.spanning.valid(x) && s1.spanning.valid(y)
                    ==> #[trigger] s2.spanning.tree_adjacent(x, y) == s1.spanning.tree_adjacent(
                    x,
                    y,
                ),
        ensures
            s2.chord_cycle_ok(row, j),
    {
        let w = choose|w: Seq<[NodeIndex; 2]>|
            s1.spanning.tree_walk(w, s1.edges@[j][0], s1.edges@[j][1])
                && SpanningForest::walk_nodes_distinct(w) && row_encodes_cycle(
                row,
                j,
                w,
                s1.edges@,
            );
        assert forall|t: int|
            0 <= t < w.len()
            implies s2.spanning.valid((#[trigger] w[t])[0].0 as int) && s2.spanning.valid(
                w[t][1].0 as int,
            ) && s2.spanning.tree_adjacent(w[t][0].0 as int, w[t][1].0 as int) by {
            assert(s1.spanning.valid(w[t][0].0 as int) && s1.spanning.valid(w[t][1].0 as int)
                && s1.spanning.tree_adjacent(w[t][0].0 as int, w[t][1].0 as int));
        }
        assert(s2.spanning.tree_walk(w, s2.edges@[j][0], s2.edges@[j][1]));
        assert(row_encodes_cycle(row, j, w, s2.edges@));
    }

    /// The loop matrix: one row per independent cycle.
    pub closed spec fn loop_matrix(self) -> Seq<Seq<i8>> {
        self.loops@.map_values(|row: Vec<i8>| row@)
    }

    /// The transposed loop matrix.
    pub closed spec fn loop_matrix_transposed(self) -> Seq<Seq<i8>> {
        self.loops_transposed@.map_values(|row: Vec<i8>| row@)
    }

    /// Edge `j` is the edge-list instance that stands for a tree edge: its
    /// node pair lies in the forest and no earlier list entry joins the
    /// same pair.
    pub open spec fn is_tree_instance(self, j: int) -> bool {
        &&& self.tree_adjacent(self.edge_list()[j][0].0 as int, self.edge_list()[j][1].0 as int)
        &&& forall|k: int|
            0 <= k < j ==> !pair_matches(
                #[trigger] self.edge_list()[k],
                self.edge_list()[j][0].0 as int,
                self.edge_list()[j][1].0 as int,
            )
    }

    /// Edge `j` is a chord: it closes one independent cycle.
    pub open spec fn is_chord(self, j: int) -> bool {
        0 <= j < self.edge_list().len() && !self.is_tree_instance(j)
    }

    /// The list positions of the chords among the first `upto` edges,
    /// in ascending order.
    pub open spec fn chord_positions(self, upto: int) -> Seq<int>
        decreases upto,
    {
        if upto <= 0 {
            Seq::empty()
        } else if self.is_chord(upto - 1) {
            self.chord_positions(upto - 1).push(upto - 1)
        } else {
            self.chord_positions(upto - 1)
        }
    }

    /// Graph, forest and edge list agree: matrices are well formed and of
    /// one size, edges join distinct valid nodes, and two nodes are
    /// adjacent exactly when some edge of the list joins them.
    pub open spec fn topology_wf(self) -> bool {
        &&& self.matrices_wf()
        &&& forall|k: int|
            0 <= k < self.edge_list().len() ==> self.valid(
                (#[trigger] self.edge_list()[k])[0].0 as int,
            ) && self.valid(self.edge_list()[k][1].0 as int)
                && self.edge_list()[k][0].0 != self.edge_list()[k][1].0
        &&& forall|a: int, b: int|
            self.valid(a) && self.valid(b) ==> (#[trigger] self.adjacent(a, b)
                == pair_in_list(self.edge_list(), a, b))
    }

    /// The incidence matrix and the forest are internally well formed, the
    /// forest covers the same nodes, every tree edge is a graph edge, and
    /// graph-adjacent nodes share a forest component: the forest spans.
    pub closed spec fn matrices_wf(self) -> bool {
        &&& self.graph.wf()
        &&& self.spanning.wf()
        &&& self.spanning.nodes() == self.graph.nodes()
        &&& forall|a: int, b: int|
            self.valid(a) && self.valid(b) && #[trigger] self.spanning.tree_adjacent(a, b)
                ==> self.graph.adjacent(a, b)
        &&& forall|a: int, b: int|
            self.valid(a) && self.valid(b) && #[trigger] self.graph.adjacent(a, b)
                ==> self.spanning.component_of(a) == self.spanning.component_of(b)
    }

    /// The loop matrix has one row per chord, a column per edge, entries
    /// in `{-1, 0, 1}`, and the transposed matrix mirrors it. Each row is
    /// the signed incidence of its chord's fundamental cycle
    /// (`chord_cycle_ok`): `+1` in its own chord column, the traversal
    /// direction of the chord's tree path elsewhere, and `0` beyond the
    /// cycle; a chord's column is `0` in every other row.
    pub open spec fn loops_wf(self) -> bool {
        let rows = self.loop_matrix();
        let cols = self.edge_list().len() as int;
        let chords = self.chord_positions(cols);
        &&& rows.len() == chords.len()
        &&& forall|i: int| 0 <= i < rows.len() ==> (#[trigger] rows[i]).len() == cols
        &&& forall|i: int, j: int|
            0 <= i < rows.len() && 0 <= j < cols ==> -1 <= #[trigger] rows[i][j] <= 1
        &&& forall|i: int| 0 <= i < rows.len() ==> (#[trigger] rows[i])[chords[i]] == 1
        &&& forall|i: int, j: int|
            0 <= i < rows.len() && 0 <= j < cols && j != chords[i] && #[trigger] rows[i][j] != 0
                ==> self.tree_adjacent(
                self.edge_list()[j][0].0 as int,
                self.edge_list()[j][1].0 as int,
            ) && first_of_pair(self.edge_list(), j)
        &&& forall|i: int|
            0 <= i < rows.len() ==> #[trigger] self.chord_cycle_ok(rows[i], chords[i])
        &&& forall|i1: int, i2: int|
            0 <= i1 < rows.len() && 0 <= i2 < rows.len() && i1 != i2
                ==> (#[trigger] rows[i1])[#[trigger] chords[i2]] == 0
        &&& self.loop_matrix_transposed().len() == cols
        &&& forall|j: int|
            0 <= j < cols ==> (#[trigger] self.loop_matrix_transposed()[j]).len() == rows.len()
        &&& forall|i: int, j: int|
            0 <= i < rows.len() && 0 <= j < cols
                ==> #[trigger] self.loop_matrix_transposed()[j][i] == rows[i][j]
    }

    /// The whole structure is consistent.
    pub open spec fn wf(self) -> bool {
        self.topology_wf() && self.loops_wf()
    }

    /// An empty topology: no nodes, no edges, no loops.
    pub fn new() -> (r: Self)
        ensures
            r.wf(),
            r.nodes() == 0,
            r.edge_list().len() == 0,
            r.loop_matrix().len() == 0,
    {
        CircuitGraph {
            graph: MatrixGraph::new(0),
            spanning: SpanningForest::build(&MatrixGraph::new(0)),
            edges: Vec::new(),
            loops: Vec::new(),
            loops_transposed: Vec::new(),
        }
    }

    /// Grows the graph and the forest by one fresh, isolated node, which
    /// forms a new one-node tree; returns its index.
    pub fn next_node(&mut self) -> (r: NodeIndex)
        requires
            old(self).wf(),
            old(self).nodes() < usize::MAX,
        ensures
            final(self).wf(),
            final(self).nodes() == old(self).nodes() + 1,
            r.0 == old(self).nodes(),
            final(self).edge_list() == old(self).edge_list(),
            final(self).loop_matrix() == old(self).loop_matrix(),
            forall|x: int, y: int|
                old(self).valid(x) && old(self).valid(y)
                    ==> #[trigger] final(self).same_component(x, y) == old(self).same_component(
                    x,
                    y,
                ),
            forall|x: int|
                old(self).valid(x) ==> !(#[trigger] final(self).same_component(
                    x,
                    old(self).nodes() as int,
                )),
            forall|x: int|
                old(self).valid(x) ==> !(#[trigger] final(self).same_component(
                    old(self).nodes() as int,
                    x,
                )),
    {
        proof {
            old(self).spanning.lemma_component_valid();
        }
        self.spanning.next_node();
        let r = self.graph.next_node();
        proof {
            assert forall|a: int, b: int|
                self.valid(a) && self.valid(b)
                implies (#[trigger] self.adjacent(a, b)
                    == pair_in_list(self.edge_list(), a, b)) by {
                if a < old(self).nodes() && b < old(self).nodes() {
                    assert(self.adjacent(a, b) == old(self).adjacent(a, b));
                } else {
                    assert(!self.adjacent(a, b));
                    assert forall|k: int| 0 <= k < self.edge_list().len()
                        implies !pair_matches(#[trigger] self.edge_list()[k], a, b) by {
                        assert(self.edge_list()[k][0].0 < old(self).nodes());
                        assert(self.edge_list()[k][1].0 < old(self).nodes());
                    }
                }
            }
            assert forall|a: int, b: int|
                self.valid(a) && self.valid(b) && #[trigger] self.spanning.tree_adjacent(a, b)
                implies self.graph.adjacent(a, b) by {
                if a < old(self).nodes() && b < old(self).nodes() {
                    assert(self.spanning.tree_adjacent(a, b)
                        == old(self).spanning.tree_adjacent(a, b));
                    assert(old(self).graph.adjacent(a, b));
                    assert(self.graph.entry(a, b) == old(self).graph.entry(a, b));
                } else {
                    assert(a == old(self).nodes() || b == old(self).nodes());
                    assert(!self.spanning.tree_adjacent(a, b));
                }
            }
            assert forall|a: int, b: int|
                self.valid(a) && self.valid(b) && #[trigger] self.graph.adjacent(a, b)
                implies self.spanning.component_of(a) == self.spanning.component_of(b) by {
                if a < old(self).nodes() && b < old(self).nodes() {
                    assert(self.graph.entry(a, b) == old(self).graph.entry(a, b));
                    assert(old(self).graph.adjacent(a, b));
                    assert(self.spanning.component_of(a) == old(self).spanning.component_of(a));
                    assert(self.spanning.component_of(b) == old(self).spanning.component_of(b));
                } else {
                    assert(!self.graph.adjacent(a, b));
                }
            }
            self.lemma_same_chords(*old(self), old(self).edge_list().len() as int);
            let ghost cols = old(self).edge_list().len() as int;
            assert forall|i: int|
                0 <= i < self.loop_matrix().len() implies #[trigger] self.chord_cycle_ok(
                    self.loop_matrix()[i],
                    self.chord_positions(cols)[i],
                ) by {
                assert(self.loop_matrix()[i] == old(self).loop_matrix()[i]);
                assert(self.chord_positions(cols)[i] == old(self).chord_positions(cols)[i]);
                assert(old(self).chord_cycle_ok(
                    old(self).loop_matrix()[i],
                    old(self).chord_positions(cols)[i],
                ));
                Self::lemma_chord_cycle_grow(
                    *old(self),
                    *self,
                    old(self).loop_matrix()[i],
                    old(self).chord_positions(cols)[i],
                );
            }
        }
        r
    }

    /// Inserts the directed edge: incidence entries are written, the edge
    /// joins the forest when its endpoints lay in different trees, the edge
    /// list grows by one column, and the loop matrix is recomputed.
    pub fn add_edge(&mut self, endpoints: [NodeIndex; 2])
        requires
            old(self).wf(),
            old(self).valid(endpoints[0].0 as int),
            old(self).valid(endpoints[1].0 as int),
            endpoints[0].0 != endpoints[1].0,
        ensures
            final(self).wf(),
            final(self).nodes() == old(self).nodes(),
            final(self).edge_list() == old(self).edge_list().push(endpoints),
            final(self).loop_matrix().len() == old(self).loop_matrix().len() + (if old(
                self,
            ).same_component(endpoints[0].0 as int, endpoints[1].0 as int) {
                1int
            } else {
                0int
            }),
            forall|x: int, y: int|
                old(self).valid(x) && old(self).valid(y)
                    ==> (#[trigger] final(self).same_component(x, y) == (old(
                    self,
                ).same_component(x, y) || (old(self).same_component(x, endpoints[0].0 as int)
                    && old(self).same_component(y, endpoints[1].0 as int)) || (old(
                    self,
                ).same_component(x, endpoints[1].0 as int) && old(self).same_component(
                    y,
                    endpoints[0].0 as int,
                )))),
    {
        let ghost a = endpoints[0].0 as int;
        let ghost b = endpoints[1].0 as int;
        let ghost graph0 = self.graph;
        let ghost spanning0 = self.spanning;
        let ghost edges0 = self.edges@;
        self.graph.add_edge(endpoints);
        let merged = self.spanning.add_edge(endpoints);
        self.edges.push(endpoints);
        proof {
            assert forall|x: int, y: int|
                self.valid(x) && self.valid(y)
                implies (#[trigger] self.adjacent(x, y)
                    == pair_in_list(self.edge_list(), x, y)) by {
                if pair_matches(endpoints, x, y) {
                    assert(self.graph.entry(a, b) == 1);
                    assert(self.graph.entry(b, a) == -1);
                    assert(self.adjacent(x, y));
                    assert(pair_matches(self.edge_list()[self.edge_list().len() - 1], x, y));
                } else {
                    assert(self.graph.entry(x, y) == graph0.entry(x, y));
                    assert(old(self).adjacent(x, y) == pair_in_list(edges0, x, y));
                    if pair_in_list(edges0, x, y) {
                        let k = choose|k: int|
                            0 <= k < edges0.len() && pair_matches(#[trigger] edges0[k], x, y);
                        assert(pair_matches(self.edge_list()[k], x, y));
                    }
                    if pair_in_list(self.edge_list(), x, y) {
                        let k = choose|k: int|
                            0 <= k < self.edge_list().len() && pair_matches(
                                #[trigger] self.edge_list()[k],
                                x,
                                y,
                            );
                        assert(k < edges0.len());
                        assert(pair_matches(edges0[k], x, y));
                    }
                }
            }
            assert forall|x: int, y: int|
                self.valid(x) && self.valid(y) && #[trigger] self.spanning.tree_adjacent(x, y)
                implies self.graph.adjacent(x, y) by {
                if pair_matches(endpoints, x, y) {
                    assert(self.graph.entry(a, b) == 1 && self.graph.entry(b, a) == -1);
                } else {
                    assert(self.spanning.tree_adjacent(x, y)
                        == spanning0.tree_adjacent(x, y));
                    assert(old(self).spanning.tree_adjacent(x, y)
                        ==> old(self).graph.adjacent(x, y));
                    assert(self.graph.entry(x, y) == graph0.entry(x, y));
                }
            }
            assert forall|k: int|
                0 <= k < self.edge_list().len()
                implies self.valid((#[trigger] self.edge_list()[k])[0].0 as int)
                    && self.valid(self.edge_list()[k][1].0 as int)
                    && self.edge_list()[k][0].0 != self.edge_list()[k][1].0 by {
                if k < edges0.len() {
                    assert(self.edge_list()[k] == old(self).edge_list()[k]);
                    assert(old(self).valid((old(self).edge_list()[k])[0].0 as int));
                } else {
                    assert(self.edge_list()[k] == endpoints);
                }
            }
            assert forall|x: int, y: int|
                self.valid(x) && self.valid(y) && #[trigger] self.graph.adjacent(x, y)
                implies self.spanning.component_of(x) == self.spanning.component_of(y) by {
                let ca = spanning0.component_of(a);
                let cb = spanning0.component_of(b);
                if pair_matches(endpoints, x, y) {
                    assert(self.spanning.component_of(a) == ca || self.spanning.component_of(a)
                        == ca);
                    if ca != cb {
                        assert(self.spanning.component_of(a) == ca);
                        assert(self.spanning.component_of(b) == ca);
                    } else {
                        assert(self.spanning.component_of(x)
                            == if spanning0.component_of(x) == cb && ca != cb {
                            ca
                        } else {
                            spanning0.component_of(x)
                        });
                        assert(self.spanning.component_of(y)
                            == if spanning0.component_of(y) == cb && ca != cb {
                            ca
                        } else {
                            spanning0.component_of(y)
                        });
                    }
                } else {
                    assert(self.graph.entry(x, y) == graph0.entry(x, y));
                    assert(old(self).graph.adjacent(x, y));
                    assert(spanning0.component_of(x) == spanning0.component_of(y));
                    assert(self.spanning.component_of(x)
                        == if spanning0.component_of(x) == cb && ca != cb {
                        ca
                    } else {
                        spanning0.component_of(x)
                    });
                    assert(self.spanning.component_of(y)
                        == if spanning0.component_of(y) == cb && ca != cb {
                        ca
                    } else {
                        spanning0.component_of(y)
                    });
                }
            }
        }
        self.update_loops();
        proof {
            let cols0 = edges0.len() as int;
            assert forall|j: int| 0 <= j < cols0
                implies #[trigger] self.is_chord(j) == old(self).is_chord(j) by {
                assert(self.edge_list()[j] == old(self).edge_list()[j]);
                let p0 = old(self).edge_list()[j][0].0 as int;
                let p1 = old(self).edge_list()[j][1].0 as int;
                assert(self.tree_adjacent(p0, p1) == old(self).tree_adjacent(p0, p1)) by {
                    if merged {
                        assert(!pair_matches(endpoints, p0, p1)) by {
                            if pair_matches(endpoints, p0, p1) {
                                assert(pair_in_list(edges0, p0, p1)) by {
                                    assert(pair_matches(edges0[j], p0, p1));
                                }
                                assert(old(self).adjacent(p0, p1)
                                    == pair_in_list(old(self).edge_list(), p0, p1));
                                assert(old(self).spanning.component_of(p0)
                                    == old(self).spanning.component_of(p1));
                            }
                        }
                    }
                }
                assert(self.is_tree_instance(j) == old(self).is_tree_instance(j)) by {
                    if self.is_tree_instance(j) {
                        assert forall|k: int| 0 <= k < j
                            implies !pair_matches(#[trigger] old(self).edge_list()[k], p0, p1) by {
                            assert(old(self).edge_list()[k] == self.edge_list()[k]);
                        }
                    }
                    if old(self).is_tree_instance(j) {
                        assert forall|k: int| 0 <= k < j
                            implies !pair_matches(#[trigger] self.edge_list()[k], p0, p1) by {
                            assert(old(self).edge_list()[k] == self.edge_list()[k]);
                        }
                    }
                }
            }
            self.lemma_chords_agree(*old(self), cols0);
            if old(self).same_component(a, b) {
                assert(!merged);
                assert(self.is_chord(cols0)) by {
                    if pair_in_list(edges0, a, b) {
                        let k = choose|k: int|
                            0 <= k < edges0.len() && pair_matches(#[trigger] edges0[k], a, b);
                        assert(pair_matches(self.edge_list()[k], a, b));
                        assert(!self.is_tree_instance(cols0));
                    } else {
                        assert(old(self).adjacent(a, b) == pair_in_list(old(self).edge_list(), a, b));
                        assert(!old(self).adjacent(a, b));
                        assert(!old(self).spanning.tree_adjacent(a, b));
                        assert(!self.tree_adjacent(a, b));
                        assert(!self.is_tree_instance(cols0));
                    }
                }
                assert(self.chord_positions(cols0 + 1)
                    == self.chord_positions(cols0).push(cols0));
            } else {
                assert(merged);
                assert(self.tree_adjacent(a, b));
                assert forall|k: int| 0 <= k < cols0
                    implies !pair_matches(#[trigger] self.edge_list()[k], a, b) by {
                    if pair_matches(self.edge_list()[k], a, b) {
                        assert(pair_in_list(edges0, a, b)) by {
                            assert(pair_matches(edges0[k], a, b));
                        }
                        assert(old(self).adjacent(a, b)
                            == pair_in_list(old(self).edge_list(), a, b));
                        assert(old(self).spanning.component_of(a)
                            == old(self).spanning.component_of(b));
                    }
                }
                assert(self.is_tree_instance(cols0));
                assert(!self.is_chord(cols0));
                assert(self.chord_positions(cols0 + 1) == self.chord_positions(cols0));
            }
            let ca = spanning0.component_of(a);
            let cb = spanning0.component_of(b);
            assert forall|x: int, y: int|
                old(self).valid(x) && old(self).valid(y)
                implies (#[trigger] self.same_component(x, y) == (old(self).same_component(x, y)
                    || (old(self).same_component(x, a) && old(self).same_component(y, b)) || (old(
                    self,
                ).same_component(x, b) && old(self).same_component(y, a)))) by {
                let fx = self.spanning.component_of(x);
                let fy = self.spanning.component_of(y);
                if merged {
                    assert(fx == if spanning0.component_of(x) == cb {
                        ca
                    } else {
                        spanning0.component_of(x)
                    });
                    assert(fy == if spanning0.component_of(y) == cb {
                        ca
                    } else {
                        spanning0.component_of(y)
                    });
                } else {
                    assert(fx == spanning0.component_of(x));
                    assert(fy == spanning0.component_of(y));
                }
            }
        }
    }

    /// Removes the edge at the given list position. Its incidence entries
    /// are cleared only when no other edge joins the same pair, the forest
    /// is rebuilt from scratch from the post-removal graph, and the loop
    /// matrix is recomputed.
    pub fn remove_edge(&mut self, index: usize)
        requires
            old(self).wf(),
            index < old(self).edge_list().len(),
        ensures
            final(self).wf(),
            final(self).nodes() == old(self).nodes(),
            final(self).edge_list() == old(self).edge_list().remove(index as int),
    {
        let e = self.edges[index];
        let ghost edges0 = self.edges@;
        let ghost graph0 = self.graph;
        self.edges.remove(index);
        proof {
            edges0.remove_ensures(index as int);
        }
        let still_joined = pair_in_list_search(&self.edges, e);
        if !still_joined {
            self.graph.remove_edge(e);
        }
        proof {
            assert forall|x: int, y: int|
                self.valid(x) && self.valid(y)
                implies (#[trigger] self.graph.adjacent(x, y)
                    == pair_in_list(self.edges@, x, y)) by {
                assert(old(self).adjacent(x, y) == pair_in_list(edges0, x, y));
                if pair_matches(e, x, y) {
                    if still_joined {
                        assert(self.graph.entry(x, y) == graph0.entry(x, y));
                        assert(pair_in_list(edges0, x, y)) by {
                            assert(pair_matches(edges0[index as int], x, y));
                        }
                        assert(graph0.adjacent(x, y));
                        assert(pair_in_list(self.edges@, x, y)) by {
                            let k = choose|k: int|
                                0 <= k < self.edges@.len() && pair_matches(
                                    #[trigger] self.edges@[k],
                                    e[0].0 as int,
                                    e[1].0 as int,
                                );
                            assert(pair_matches(self.edges@[k], x, y));
                        }
                    } else {
                        assert(self.graph.entry(x, y) == 0);
                        if pair_in_list(self.edges@, x, y) {
                            let k = choose|k: int|
                                0 <= k < self.edges@.len() && pair_matches(
                                    #[trigger] self.edges@[k],
                                    x,
                                    y,
                                );
                            assert(pair_matches(self.edges@[k], e[0].0 as int, e[1].0 as int));
                        }
                    }
                } else {
                    assert(self.graph.entry(x, y) == graph0.entry(x, y));
                    assert(old(self).adjacent(x, y) == pair_in_list(edges0, x, y));
                    if pair_in_list(edges0, x, y) {
                        let k = choose|k: int|
                            0 <= k < edges0.len() && pair_matches(#[trigger] edges0[k], x, y);
                        assert(k != index);
                        if k < index {
                            assert(self.edges@[k] == edges0[k]);
                            assert(pair_matches(self.edges@[k], x, y));
                        } else {
                            assert(self.edges@[k - 1] == edges0[k]);
                            assert(pair_matches(self.edges@[k - 1], x, y));
                        }
                    }
                    if pair_in_list(self.edges@, x, y) {
                        let k = choose|k: int|
                            0 <= k < self.edges@.len() && pair_matches(
                                #[trigger] self.edges@[k],
                                x,
                                y,
                            );
                        if k < index {
                            assert(edges0[k] == self.edges@[k]);
                            assert(pair_matches(edges0[k], x, y));
                        } else {
                            assert(edges0[k + 1] == self.edges@[k]);
                            assert(pair_matches(edges0[k + 1], x, y));
                        }
                    }
                }
            }
        }
        proof {
            assert forall|k: int|
                0 <= k < self.edge_list().len()
                implies self.valid((#[trigger] self.edge_list()[k])[0].0 as int)
                    && self.valid(self.edge_list()[k][1].0 as int)
                    && self.edge_list()[k][0].0 != self.edge_list()[k][1].0 by {
                let k0: int = if k < index { k } else { k + 1 };
                assert(self.edge_list()[k] == old(self).edge_list()[k0]);
                assert(old(self).valid((old(self).edge_list()[k0])[0].0 as int));
            }
        }
        self.spanning = SpanningForest::build(&self.graph);
        proof {
            assert forall|a: int, b: int|
                self.valid(a) && self.valid(b)
                implies (#[trigger] self.adjacent(a, b)
                    == pair_in_list(self.edge_list(), a, b)) by {
                assert(self.graph.adjacent(a, b) == pair_in_list(self.edges@, a, b));
            }
        }
        self.update_loops();
    }

    /// Where a node index moved after the removal of node `r`.
    pub open spec fn shift_node(n: NodeIndex, r: int) -> NodeIndex {
        if n.0 < r {
            n
        } else {
            NodeIndex((n.0 - 1) as usize)
        }
    }

    /// Deletes the node's row and column, shifting all later node indices
    /// down by one; the edge list is renumbered the same way and the loop
    /// matrix recomputed. The node must be isolated: no listed edge may
    /// still use it.
    pub fn remove_node(&mut self, node: NodeIndex)
        requires
            old(self).wf(),
            old(self).valid(node.0 as int),
            forall|k: int|
                0 <= k < old(self).edge_list().len()
                    ==> (#[trigger] old(self).edge_list()[k])[0].0 != node.0
                        && old(self).edge_list()[k][1].0 != node.0,
        ensures
            final(self).wf(),
            final(self).nodes() == old(self).nodes() - 1,
            final(self).edge_list().len() == old(self).edge_list().len(),
            forall|k: int|
                0 <= k < old(self).edge_list().len()
                    ==> (#[trigger] final(self).edge_list()[k])[0]
                        == Self::shift_node(old(self).edge_list()[k][0], node.0 as int)
                        && final(self).edge_list()[k][1]
                        == Self::shift_node(old(self).edge_list()[k][1], node.0 as int),
    {
        let ghost r = node.0 as int;
        let ghost graph0 = self.graph;
        let ghost edges0 = self.edges@;
        self.graph.remove_node(node);
        self.spanning = SpanningForest::build(&self.graph);
        let ghost graph1 = self.graph;
        let ghost spanning1 = self.spanning;
        let count = self.edges.len();
        let mut k: usize = 0;
        while k < count
            invariant
                k <= count,
                count == edges0.len(),
                self.edges@.len() == count,
                r == node.0 as int,
                self.graph == graph1,
                self.spanning == spanning1,
                forall|i: int|
                    0 <= i < count ==> (#[trigger] edges0[i])[0].0 != node.0
                        && edges0[i][1].0 != node.0,
                forall|i: int| k <= i < count ==> #[trigger] self.edges@[i] == edges0[i],
                forall|i: int|
                    0 <= i < k ==> (#[trigger] self.edges@[i])[0]
                        == Self::shift_node(edges0[i][0], r)
                        && self.edges@[i][1] == Self::shift_node(edges0[i][1], r),
            decreases count - k,
        {
            let e = self.edges[k];
            let e0 = if e[0].0 > node.0 {
                NodeIndex(e[0].0 - 1)
            } else {
                e[0]
            };
            let e1 = if e[1].0 > node.0 {
                NodeIndex(e[1].0 - 1)
            } else {
                e[1]
            };
            self.edges[k] = [e0, e1];
            proof {
                assert(self.edges@[k as int][0] == e0);
                assert(self.edges@[k as int][1] == e1);
                assert(e0 == Self::shift_node(edges0[k as int][0], r));
                assert(e1 == Self::shift_node(edges0[k as int][1], r));
            }
            k = k + 1;
        }
        proof {
            let n1 = self.nodes() as int;
            assert(n1 == old(self).nodes() - 1);
            assert forall|i: int|
                0 <= i < count
                implies 0 <= (#[trigger] self.edges@[i])[0].0 < n1
                    && 0 <= self.edges@[i][1].0 < n1
                    && self.edges@[i][0].0 != self.edges@[i][1].0 by {
                assert(old(self).valid((old(self).edge_list()[i])[0].0 as int));
            }
            assert forall|x: int, y: int|
                0 <= x < n1 && 0 <= y < n1
                implies (#[trigger] self.graph.adjacent(x, y)
                    == pair_in_list(self.edges@, x, y)) by {
                let sx = MatrixGraph::shift_from(r, x);
                let sy = MatrixGraph::shift_from(r, y);
                assert(graph1.entry(x, y) == graph0.entry(sx, sy));
                assert(old(self).adjacent(sx, sy) == pair_in_list(edges0, sx, sy));
                if pair_in_list(edges0, sx, sy) {
                    let k2 = choose|k2: int|
                        0 <= k2 < edges0.len() && pair_matches(#[trigger] edges0[k2], sx, sy);
                    assert(edges0[k2][0].0 != node.0 && edges0[k2][1].0 != node.0);
                    assert(pair_matches(self.edges@[k2], x, y));
                }
                if pair_in_list(self.edges@, x, y) {
                    let k2 = choose|k2: int|
                        0 <= k2 < self.edges@.len() && pair_matches(
                            #[trigger] self.edges@[k2],
                            x,
                            y,
                        );
                    assert(edges0[k2][0].0 != node.0 && edges0[k2][1].0 != node.0);
                    assert(pair_matches(edges0[k2], sx, sy));
                }
            }
        }
        self.update_loops();
    }

    /// The ordered edge list, one entry per element, in column order.
    pub fn edges(&self) -> (r: &Vec<[NodeIndex; 2]>)
        ensures
            r@ == self.edge_list(),
    {
        &self.edges
    }

    /// The loop matrix and its transpose, one row per independent cycle,
    /// one column per edge.
    pub fn loops(&self) -> (r: (&Vec<Vec<i8>>, &Vec<Vec<i8>>))
        ensures
            r.0@.map_values(|row: Vec<i8>| row@) == self.loop_matrix(),
            r.1@.map_values(|row: Vec<i8>| row@) == self.loop_matrix_transposed(),
    {
        (&self.loops, &self.loops_transposed)
    }

    /// Whether list entry `j` is a chord relative to the current forest.
    fn is_chord_at(&self, j: usize) -> (r: bool)
        requires
            self.topology_wf(),
            j < self.edge_list().len(),
        ensures
            r == self.is_chord(j as int),
    {
        let e = self.edges[j];
        if !self.spanning.has_edge(e) {
            return true;
        }
        let mut k: usize = 0;
        while k < j
            invariant
                k <= j,
                j < self.edges@.len(),
                e == self.edges@[j as int],
                self.topology_wf(),
                forall|k2: int|
                    0 <= k2 < k ==> !pair_matches(
                        #[trigger] self.edges@[k2],
                        self.edges@[j as int][0].0 as int,
                        self.edges@[j as int][1].0 as int,
                    ),
            decreases j - k,
        {
            let o = self.edges[k];
            if (o[0].0 == e[0].0 && o[1].0 == e[1].0) || (o[0].0 == e[1].0 && o[1].0 == e[0].0) {
                proof {
                    assert(o == self.edges@[k as int]);
                    assert(e == self.edges@[j as int]);
                    assert(pair_matches(
                        self.edges@[k as int],
                        self.edges@[j as int][0].0 as int,
                        self.edges@[j as int][1].0 as int,
                    ));
                    assert(!self.is_tree_instance(j as int));
                }
                return true;
            }
            proof {
                assert(o == self.edges@[k as int]);
                assert(e == self.edges@[j as int]);
                assert(!pair_matches(
                    self.edges@[k as int],
                    self.edges@[j as int][0].0 as int,
                    self.edges@[j as int][1].0 as int,
                ));
            }
            k = k + 1;
        }
        false
    }

    /// The first list column joined by the same pair as `pe`, with `true`
    /// when the stored orientation agrees with `pe`.
    fn find_column(&self, pe: [NodeIndex; 2]) -> (r: Option<(usize, bool)>)
        ensures
            r matches Some(hit) ==> {
                &&& hit.0 < self.edge_list().len()
                &&& pair_matches(self.edge_list()[hit.0 as int], pe[0].0 as int, pe[1].0 as int)
                &&& hit.1 ==> self.edge_list()[hit.0 as int][0].0 == pe[0].0
                    && self.edge_list()[hit.0 as int][1].0 == pe[1].0
                &&& !hit.1 ==> self.edge_list()[hit.0 as int][0].0 == pe[1].0
                    && self.edge_list()[hit.0 as int][1].0 == pe[0].0
                &&& forall|k: int|
                    0 <= k < hit.0 ==> !pair_matches(
                        #[trigger] self.edge_list()[k],
                        pe[0].0 as int,
                        pe[1].0 as int,
                    )
            },
            r is None ==> forall|k: int|
                0 <= k < self.edge_list().len() ==> !pair_matches(
                    #[trigger] self.edge_list()[k],
                    pe[0].0 as int,
                    pe[1].0 as int,
                ),
    {
        let count = self.edges.len();
        let mut k: usize = 0;
        while k < count
            invariant
                k <= count,
                count == self.edges@.len(),
                forall|k2: int|
                    0 <= k2 < k ==> !pair_matches(
                        #[trigger] self.edges@[k2],
                        pe[0].0 as int,
                        pe[1].0 as int,
                    ),
            decreases count - k,
        {
            let o = self.edges[k];
            if o[0].0 == pe[0].0 && o[1].0 == pe[1].0 {
                return Some((k, true));
            }
            if o[0].0 == pe[1].0 && o[1].0 == pe[0].0 {
                return Some((k, false));
            }
            proof {
                assert(o == self.edges@[k as int]);
                assert(!pair_matches(self.edges@[k as int], pe[0].0 as int, pe[1].0 as int));
            }
            k = k + 1;
        }
        None
    }

    /// One loop-matrix row for chord `j`: the cycle is the tree path
    /// between the chord's endpoints plus the chord itself, and each cycle
    /// edge marks its column with the direction the cycle traverses it.
    #[verifier::rlimit(100)]
    #[verifier::spinoff_prover]
    fn cycle_row(&self, j: usize) -> (row: Vec<i8>)
        requires
            self.topology_wf(),
            j < self.edge_list().len(),
        ensures
            row@.len() == self.edge_list().len(),
            forall|c: int| 0 <= c < row@.len() ==> -1 <= #[trigger] row@[c] <= 1,
            row@[j as int] == 1,
            forall|c: int|
                0 <= c < row@.len() && c != j && #[trigger] row@[c] != 0
                    ==> self.tree_adjacent(
                    self.edge_list()[c][0].0 as int,
                    self.edge_list()[c][1].0 as int,
                ) && first_of_pair(self.edge_list(), c),
            self.chord_cycle_ok(row@, j as int),
    {
        let e_count = self.edges.len();
        let mut row: Vec<i8> = Vec::new();
        let mut z: usize = 0;
        while z < e_count
            invariant
                z <= e_count,
                row@.len() == z,
                forall|c: int| 0 <= c < z ==> (#[trigger] row@[c]) == 0i8,
            decreases e_count - z,
        {
            row.push(0i8);
            z = z + 1;
        }
        let e = self.edges[j];
        proof {
            assert(pair_in_list(self.edge_list(), e[0].0 as int, e[1].0 as int)) by {
                assert(pair_matches(self.edge_list()[j as int], e[0].0 as int, e[1].0 as int));
            }
            assert(self.adjacent(e[0].0 as int, e[1].0 as int) == pair_in_list(
                self.edge_list(),
                e[0].0 as int,
                e[1].0 as int,
            ));
            assert(self.spanning.component_of(e[0].0 as int) == self.spanning.component_of(
                e[1].0 as int,
            ));
            self.spanning.lemma_linked_components(e[0].0 as int, e[1].0 as int);
        }
        let path_found = self.spanning.find_path(e);
        let path = match path_found {
            Some(p) => p,
            None => {
                proof {
                    assert(false);
                }
                Vec::new()
            },
        };
        let ghost walk = path@;
        let ghost s = self.edge_list();
        let mut p: usize = 0;
        while p < path.len()
            invariant
                p <= path@.len(),
                path@ == walk,
                s == self.edge_list(),
                self.topology_wf(),
                self.spanning.tree_walk(walk, s[j as int][0], s[j as int][1]),
                SpanningForest::walk_nodes_distinct(walk),
                forall|t1: int, t2: int|
                    0 <= t1 < t2 < walk.len() ==> !((#[trigger] walk[t1])[0].0
                        == (#[trigger] walk[t2])[0].0 && walk[t1][1].0 == walk[t2][1].0) && !(
                    walk[t1][0].0 == walk[t2][1].0 && walk[t1][1].0 == walk[t2][0].0),
                j < s.len(),
                row@.len() == e_count,
                e_count == s.len(),
                forall|c: int|
                    0 <= c < e_count ==> #[trigger] row@[c] == (if first_of_pair(s, c)
                        && walk_hits(
                        walk.subrange(0, p as int),
                        s[c][0].0 as int,
                        s[c][1].0 as int,
                    ) {
                        1i8
                    } else if first_of_pair(s, c) && walk_hits(
                        walk.subrange(0, p as int),
                        s[c][1].0 as int,
                        s[c][0].0 as int,
                    ) {
                        -1i8
                    } else {
                        0i8
                    }),
            decreases path@.len() - p,
        {
            let pe = path[p];
            let ghost prefix0 = walk.subrange(0, p as int);
            let ghost prefix1 = walk.subrange(0, p as int + 1);
            proof {
                assert(walk[p as int] == pe);
                assert(prefix1 =~= prefix0.push(pe));
                assert(self.spanning.tree_adjacent(pe[0].0 as int, pe[1].0 as int));
                self.spanning.lemma_tree_adjacent_symmetric(pe[0].0 as int, pe[1].0 as int);
                self.spanning.lemma_tree_adjacent_irreflexive(pe[0].0 as int);
                assert(pe[0].0 != pe[1].0);
                assert(self.adjacent(pe[0].0 as int, pe[1].0 as int));
                assert(self.adjacent(pe[0].0 as int, pe[1].0 as int) == pair_in_list(
                    s,
                    pe[0].0 as int,
                    pe[1].0 as int,
                ));
            }
            let found = self.find_column(pe);
            let hit = match found {
                Some(h) => h,
                None => {
                    proof {
                        let k = choose|k: int|
                            0 <= k < s.len() && pair_matches(
                                #[trigger] s[k],
                                pe[0].0 as int,
                                pe[1].0 as int,
                            );
                        assert(false);
                    }
                    (0, true)
                },
            };
            let value: i8 = if hit.1 {
                1i8
            } else {
                -1i8
            };
            let ghost row0 = row@;
            row[hit.0] = value;
            proof {
                let kc = hit.0 as int;
                assert(first_of_pair(s, kc)) by {
                    assert forall|k: int|
                        0 <= k < kc implies !pair_matches(
                            #[trigger] s[k],
                            s[kc][0].0 as int,
                            s[kc][1].0 as int,
                        ) by {
                        assert(!pair_matches(s[k], pe[0].0 as int, pe[1].0 as int));
                    }
                }
                assert forall|c: int|
                    0 <= c < e_count implies #[trigger] row@[c] == (if first_of_pair(s, c)
                        && walk_hits(prefix1, s[c][0].0 as int, s[c][1].0 as int) {
                        1i8
                    } else if first_of_pair(s, c) && walk_hits(
                        prefix1,
                        s[c][1].0 as int,
                        s[c][0].0 as int,
                    ) {
                        -1i8
                    } else {
                        0i8
                    }) by {
                    if c == kc {
                        assert(prefix1[p as int] == pe);
                        if hit.1 {
                            assert(walk_hits(prefix1, s[c][0].0 as int, s[c][1].0 as int)) by {
                                assert(prefix1[p as int][0].0 == s[c][0].0
                                    && prefix1[p as int][1].0 == s[c][1].0);
                            }
                        } else {
                            assert(walk_hits(prefix1, s[c][1].0 as int, s[c][0].0 as int)) by {
                                assert(prefix1[p as int][0].0 == s[c][1].0
                                    && prefix1[p as int][1].0 == s[c][0].0);
                            }
                            assert(!walk_hits(prefix1, s[c][0].0 as int, s[c][1].0 as int)) by {
                                if walk_hits(prefix1, s[c][0].0 as int, s[c][1].0 as int) {
                                    let t = choose|t: int|
                                        0 <= t < prefix1.len() && (#[trigger] prefix1[t])[0].0
                                            == s[c][0].0 && prefix1[t][1].0 == s[c][1].0;
                                    assert(prefix1[t] == walk[t]);
                                    if t == p {
                                        assert(pe[0].0 == pe[1].0);
                                    } else {
                                        assert(walk[t][0].0 == walk[p as int][1].0
                                            && walk[t][1].0 == walk[p as int][0].0);
                                    }
                                }
                            }
                        }
                    } else {
                        assert(row@[c] == row0[c]);
                        if pair_matches(s[c], pe[0].0 as int, pe[1].0 as int) {
                            assert(c > kc) by {
                                if c < kc {
                                    assert(!pair_matches(s[c], pe[0].0 as int, pe[1].0 as int));
                                }
                            }
                            assert(!first_of_pair(s, c)) by {
                                if first_of_pair(s, c) {
                                    assert(!pair_matches(
                                        s[kc],
                                        s[c][0].0 as int,
                                        s[c][1].0 as int,
                                    ));
                                }
                            }
                        } else {
                            assert(walk_hits(prefix1, s[c][0].0 as int, s[c][1].0 as int)
                                == walk_hits(prefix0, s[c][0].0 as int, s[c][1].0 as int)) by {
                                if walk_hits(prefix1, s[c][0].0 as int, s[c][1].0 as int) {
                                    let t = choose|t: int|
                                        0 <= t < prefix1.len() && (#[trigger] prefix1[t])[0].0
                                            == s[c][0].0 && prefix1[t][1].0 == s[c][1].0;
                                    if t == p {
                                        assert(pair_matches(
                                            s[c],
                                            pe[0].0 as int,
                                            pe[1].0 as int,
                                        ));
                                    } else {
                                        assert(prefix0[t] == prefix1[t]);
                                    }
                                }
                                if walk_hits(prefix0, s[c][0].0 as int, s[c][1].0 as int) {
                                    let t = choose|t: int|
                                        0 <= t < prefix0.len() && (#[trigger] prefix0[t])[0].0
                                            == s[c][0].0 && prefix0[t][1].0 == s[c][1].0;
                                    assert(prefix1[t] == prefix0[t]);
                                }
                            }
                            assert(walk_hits(prefix1, s[c][1].0 as int, s[c][0].0 as int)
                                == walk_hits(prefix0, s[c][1].0 as int, s[c][0].0 as int)) by {
                                if walk_hits(prefix1, s[c][1].0 as int, s[c][0].0 as int) {
                                    let t = choose|t: int|
                                        0 <= t < prefix1.len() && (#[trigger] prefix1[t])[0].0
                                            == s[c][1].0 && prefix1[t][1].0 == s[c][0].0;
                                    if t == p {
                                        assert(pair_matches(
                                            s[c],
                                            pe[0].0 as int,
                                            pe[1].0 as int,
                                        ));
                                    } else {
                                        assert(prefix0[t] == prefix1[t]);
                                    }
                                }
                                if walk_hits(prefix0, s[c][1].0 as int, s[c][0].0 as int) {
                                    let t = choose|t: int|
                                        0 <= t < prefix0.len() && (#[trigger] prefix0[t])[0].0
                                            == s[c][1].0 && prefix0[t][1].0 == s[c][0].0;
                                    assert(prefix1[t] == prefix0[t]);
                                }
                            }
                        }
                    }
                }
            }
            p = p + 1;
        }
        let ghost row_full = row@;
        row[j] = 1i8;
        proof {
            assert(walk.subrange(0, walk.len() as int) =~= walk);
            assert(row@ =~= row_full.update(j as int, 1i8));
            assert forall|c: int|
                0 <= c < e_count && c != j && #[trigger] row@[c] != 0
                implies self.tree_adjacent(s[c][0].0 as int, s[c][1].0 as int) && first_of_pair(
                    s,
                    c,
                ) by {
                assert(row@[c] == row_full[c]);
                if walk_hits(walk, s[c][0].0 as int, s[c][1].0 as int) {
                    let t = choose|t: int|
                        0 <= t < walk.len() && (#[trigger] walk[t])[0].0 == s[c][0].0
                            && walk[t][1].0 == s[c][1].0;
                    assert(self.spanning.tree_adjacent(walk[t][0].0 as int, walk[t][1].0 as int));
                } else if walk_hits(walk, s[c][1].0 as int, s[c][0].0 as int) {
                    let t = choose|t: int|
                        0 <= t < walk.len() && (#[trigger] walk[t])[0].0 == s[c][1].0
                            && walk[t][1].0 == s[c][0].0;
                    assert(self.spanning.tree_adjacent(walk[t][0].0 as int, walk[t][1].0 as int));
                    self.spanning.lemma_tree_adjacent_symmetric(
                        s[c][0].0 as int,
                        s[c][1].0 as int,
                    );
                }
            }
            assert(row_encodes_cycle(row@, j as int, walk, s)) by {
                assert forall|c: int|
                    0 <= c < row@.len() && c != j implies #[trigger] row@[c] == (if first_of_pair(
                        s,
                        c,
                    ) && walk_hits(walk, s[c][0].0 as int, s[c][1].0 as int) {
                        1i8
                    } else if first_of_pair(s, c) && walk_hits(
                        walk,
                        s[c][1].0 as int,
                        s[c][0].0 as int,
                    ) {
                        -1i8
                    } else {
                        0i8
                    }) by {
                    assert(row@[c] == row_full[c]);
                }
            }
            assert(self.chord_cycle_ok(row@, j as int)) by {
                assert(self.spanning.tree_walk(walk, self.edges@[j as int][0], self.edges@[
                    j as int
                ][1]) && SpanningForest::walk_nodes_distinct(walk) && row_encodes_cycle(
                    row@,
                    j as int,
                    walk,
                    self.edges@,
                ));
            }
        }
        row
    }

    /// Recomputes the loop matrix and its transpose from the current edge
    /// list and forest: one row per chord, paired with its tree path.
    fn update_loops(&mut self)
        requires
            old(self).topology_wf(),
        ensures
            final(self).topology_wf(),
            final(self).loops_wf(),
            final(self).graph == old(self).graph,
            final(self).spanning == old(self).spanning,
            final(self).edges == old(self).edges,
    {
        let e_count = self.edges.len();
        let mut rows: Vec<Vec<i8>> = Vec::new();
        let mut j: usize = 0;
        while j < e_count
            invariant
                j <= e_count,
                self.topology_wf(),
                e_count == self.edge_list().len(),
                rows@.len() == self.chord_positions(j as int).len(),
                forall|i: int|
                    0 <= i < rows@.len() ==> (#[trigger] rows@[i])@.len() == e_count,
                forall|i: int, c: int|
                    0 <= i < rows@.len() && 0 <= c < e_count
                        ==> -1 <= #[trigger] rows@[i]@[c] <= 1,
                forall|i: int|
                    0 <= i < rows@.len()
                        ==> 0 <= #[trigger] self.chord_positions(j as int)[i] < e_count,
                forall|i: int|
                    0 <= i < rows@.len()
                        ==> (#[trigger] rows@[i])@[self.chord_positions(j as int)[i]] == 1,
                forall|i: int, c: int|
                    0 <= i < rows@.len() && 0 <= c < e_count
                        && c != self.chord_positions(j as int)[i]
                        && #[trigger] rows@[i]@[c] != 0 ==> self.tree_adjacent(
                        self.edge_list()[c][0].0 as int,
                        self.edge_list()[c][1].0 as int,
                    ) && first_of_pair(self.edge_list(), c),
                forall|i: int|
                    0 <= i < rows@.len() ==> #[trigger] self.chord_cycle_ok(
                        rows@[i]@,
                        self.chord_positions(j as int)[i],
                    ),
            decreases e_count - j,
        {
            let ghost rows0 = rows@;
            let ghost chords0 = self.chord_positions(j as int);
            if self.is_chord_at(j) {
                let row = self.cycle_row(j);
                rows.push(row);
                proof {
                    assert(rows@[rows@.len() - 1] == row);
                }
            }
            proof {
                let chords1 = self.chord_positions(j as int + 1);
                if self.is_chord(j as int) {
                    assert(chords1 == chords0.push(j as int));
                    assert(rows@ == rows0.push(rows@[rows@.len() - 1]));
                    assert forall|i: int| 0 <= i < rows@.len()
                        implies (#[trigger] rows@[i])@[chords1[i]] == 1
                            && 0 <= chords1[i] < e_count by {
                        if i < rows0.len() {
                            assert(rows@[i] == rows0[i]);
                            assert(chords1[i] == chords0[i]);
                        } else {
                            assert(chords1[i] == j as int);
                        }
                    }
                    assert forall|i: int, c: int|
                        0 <= i < rows@.len() && 0 <= c < e_count && c != chords1[i]
                            && #[trigger] rows@[i]@[c] != 0
                        implies self.tree_adjacent(
                            self.edge_list()[c][0].0 as int,
                            self.edge_list()[c][1].0 as int,
                        ) && first_of_pair(self.edge_list(), c) by {
                        if i < rows0.len() {
                            assert(rows@[i] == rows0[i]);
                            assert(chords1[i] == chords0[i]);
                        } else {
                            assert(chords1[i] == j as int);
                        }
                    }
                    assert forall|i: int|
                        0 <= i < rows@.len() implies #[trigger] self.chord_cycle_ok(
                            rows@[i]@,
                            chords1[i],
                        ) by {
                        if i < rows0.len() {
                            assert(rows@[i] == rows0[i]);
                            assert(chords1[i] == chords0[i]);
                            assert(self.chord_cycle_ok(rows0[i]@, chords0[i]));
                        } else {
                            assert(chords1[i] == j as int);
                            assert(rows@[i] == rows@[rows@.len() - 1]);
                        }
                    }
                } else {
                    assert(chords1 == chords0);
                }
            }
            j = j + 1;
        }
        let ghost pre_state = *self;
        self.loops = rows;
        let rows_count = self.loops.len();
        let mut transposed: Vec<Vec<i8>> = Vec::new();
        let mut c: usize = 0;
        while c < e_count
            invariant
                c <= e_count,
                rows_count == self.loops@.len(),
                transposed@.len() == c,
                forall|i: int|
                    0 <= i < rows_count ==> (#[trigger] self.loops@[i])@.len() == e_count,
                forall|tc: int|
                    0 <= tc < c ==> (#[trigger] transposed@[tc])@.len() == rows_count,
                forall|tc: int, i: int|
                    0 <= tc < c && 0 <= i < rows_count
                        ==> #[trigger] transposed@[tc]@[i] == self.loops@[i]@[tc],
            decreases e_count - c,
        {
            let mut column: Vec<i8> = Vec::new();
            let mut i: usize = 0;
            while i < rows_count
                invariant
                    i <= rows_count,
                    c < e_count,
                    rows_count == self.loops@.len(),
                    column@.len() == i,
                    forall|i2: int|
                        0 <= i2 < rows_count
                            ==> (#[trigger] self.loops@[i2])@.len() == e_count,
                    forall|i2: int|
                        0 <= i2 < i ==> #[trigger] column@[i2] == self.loops@[i2]@[c as int],
                decreases rows_count - i,
            {
                let v = self.loops[i][c];
                column.push(v);
                i = i + 1;
            }
            transposed.push(column);
            c = c + 1;
        }
        let ghost rows_v = self.loops@;
        self.loops_transposed = transposed;
        proof {
            assert(self.graph == old(self).graph);
            assert(self.spanning == old(self).spanning);
            assert(self.edges == old(self).edges);
            Self::lemma_topology_transfer(*old(self), *self);
            self.lemma_same_chords(*old(self), e_count as int);
            let rows = self.loop_matrix();
            let chords = self.chord_positions(e_count as int);
            assert(chords == old(self).chord_positions(e_count as int));
            assert(rows.len() == chords.len());
            assert forall|i: int| 0 <= i < rows.len()
                implies (#[trigger] rows[i]).len() == e_count
                    && rows[i][chords[i]] == 1
                    && 0 <= chords[i] < e_count by {
                assert(rows[i] == rows_v[i]@);
            }
            assert forall|i: int, j2: int|
                0 <= i < rows.len() && 0 <= j2 < e_count
                implies -1 <= #[trigger] rows[i][j2] <= 1 by {
                assert(rows[i] == rows_v[i]@);
            }
            assert forall|i: int, j2: int|
                0 <= i < rows.len() && 0 <= j2 < e_count && j2 != chords[i]
                    && #[trigger] rows[i][j2] != 0
                implies self.tree_adjacent(
                    self.edge_list()[j2][0].0 as int,
                    self.edge_list()[j2][1].0 as int,
                ) && first_of_pair(self.edge_list(), j2) by {
                assert(rows[i] == rows_v[i]@);
                assert(old(self).tree_adjacent(
                    old(self).edge_list()[j2][0].0 as int,
                    old(self).edge_list()[j2][1].0 as int,
                ) ==> self.tree_adjacent(
                    self.edge_list()[j2][0].0 as int,
                    self.edge_list()[j2][1].0 as int,
                ));
            }
            assert forall|i: int|
                0 <= i < rows.len() implies #[trigger] self.chord_cycle_ok(rows[i], chords[i]) by {
                assert(rows[i] == rows_v[i]@);
                assert(chords[i] == pre_state.chord_positions(e_count as int)[i]);
                assert(pre_state.chord_cycle_ok(rows_v[i]@, chords[i]));
                Self::lemma_chord_cycle_transfer(pre_state, *self, rows_v[i]@, chords[i]);
            }
            self.lemma_chord_positions_ascending(e_count as int);
            assert forall|i1: int, i2: int|
                0 <= i1 < rows.len() && 0 <= i2 < rows.len() && i1 != i2
                implies (#[trigger] rows[i1])[#[trigger] chords[i2]] == 0 by {
                assert(rows[i1] == rows_v[i1]@);
                let c = chords[i2];
                assert(self.is_chord(c)) by {
                    self.lemma_chord_positions_are_chords(e_count as int, i2);
                }
                assert(c != chords[i1]);
                if rows[i1][c] != 0 {
                    assert(self.tree_adjacent(
                        self.edge_list()[c][0].0 as int,
                        self.edge_list()[c][1].0 as int,
                    ) && first_of_pair(self.edge_list(), c));
                    assert(self.is_tree_instance(c));
                }
            }
            let t = self.loop_matrix_transposed();
            assert(t.len() == e_count);
            assert forall|j2: int| 0 <= j2 < e_count
                implies (#[trigger] t[j2]).len() == rows.len() by {
                assert(t[j2] == transposed@[j2]@);
            }
            assert forall|i: int, j2: int|
                0 <= i < rows.len() && 0 <= j2 < e_count
                implies #[trigger] t[j2][i] == rows[i][j2] by {
                assert(t[j2] == transposed@[j2]@);
                assert(rows[i] == rows_v[i]@);
            }
        }
    }

    /// Well-formed topology carries over to a value with the same graph,
    /// forest and edge list.
    proof fn lemma_topology_transfer(s1: Self, s2: Self)
        requires
            s1.topology_wf(),
            s2.graph == s1.graph,
            s2.spanning == s1.spanning,
            s2.edges == s1.edges,
        ensures
            s2.topology_wf(),
    {
        assert forall|a: int, b: int|
            s2.valid(a) && s2.valid(b)
            implies (#[trigger] s2.adjacent(a, b) == pair_in_list(s2.edge_list(), a, b)) by {
            assert(s1.adjacent(a, b) == pair_in_list(s1.edge_list(), a, b));
        }
        assert forall|k: int|
            0 <= k < s2.edge_list().len()
            implies s2.valid((#[trigger] s2.edge_list()[k])[0].0 as int)
                && s2.valid(s2.edge_list()[k][1].0 as int)
                && s2.edge_list()[k][0].0 != s2.edge_list()[k][1].0 by {
            assert(s1.valid((#[trigger] s1.edge_list()[k])[0].0 as int));
        }
        assert forall|a: int, b: int|
            s2.valid(a) && s2.valid(b) && #[trigger] s2.spanning.tree_adjacent(a, b)
            implies s2.graph.adjacent(a, b) by {
            assert(s1.spanning.tree_adjacent(a, b) ==> s1.graph.adjacent(a, b));
        }
    }

    /// Chord positions agree between two states that agree, edge by edge,
    /// on which list entries are chords.
    proof fn lemma_chords_agree(self, other: Self, upto: int)
        requires
            upto <= self.edge_list().len(),
            upto <= other.edge_list().len(),
            forall|j: int| 0 <= j < upto ==> #[trigger] self.is_chord(j) == other.is_chord(j),
        ensures
            self.chord_positions(upto) == other.chord_positions(upto),
        decreases upto,
    {
        if upto > 0 {
            self.lemma_chords_agree(other, upto - 1);
        }
    }

    /// Chord positions agree between two states whose edge lists, tree
    /// adjacency on listed pairs, and list length agree.
    proof fn lemma_same_chords(self, other: Self, upto: int)
        requires
            upto <= self.edge_list().len(),
            self.edge_list() == other.edge_list(),
            forall|j: int|
                0 <= j < self.edge_list().len()
                    ==> #[trigger] self.tree_adjacent(
                    self.edge_list()[j][0].0 as int,
                    self.edge_list()[j][1].0 as int,
                ) == other.tree_adjacent(
                    other.edge_list()[j][0].0 as int,
                    other.edge_list()[j][1].0 as int,
                ),
        ensures
            self.chord_positions(upto) == other.chord_positions(upto),
        decreases upto,
    {
        if upto > 0 {
            self.lemma_same_chords(other, upto - 1);
            assert(self.is_chord(upto - 1) == other.is_chord(upto - 1));
        }
    }

    /// Chord positions are strictly ascending: each loop-matrix row marks
    /// `+1` in a column of its own.
    pub proof fn lemma_chord_positions_ascending(self, upto: int)
        ensures
            forall|k1: int, k2: int|
                0 <= k1 < k2 < self.chord_positions(upto).len()
                    ==> self.chord_positions(upto)[k1] < self.chord_positions(upto)[k2],
            forall|k: int|
                0 <= k < self.chord_positions(upto).len()
                    ==> #[trigger] self.chord_positions(upto)[k] < upto,
        decreases upto,
    {
        if upto > 0 {
            self.lemma_chord_positions_ascending(upto - 1);
            let prev = self.chord_positions(upto - 1);
            let cur = self.chord_positions(upto);
            if self.is_chord(upto - 1) {
                assert(cur == prev.push(upto - 1));
                assert forall|k1: int, k2: int| 0 <= k1 < k2 < cur.len()
                    implies cur[k1] < cur[k2] by {
                    if k2 < prev.len() {
                        assert(cur[k1] == prev[k1] && cur[k2] == prev[k2]);
                    } else {
                        assert(cur[k2] == upto - 1);
                        assert(cur[k1] == prev[k1]);
                    }
                }
                assert forall|k: int| 0 <= k < cur.len()
                    implies #[trigger] cur[k] < upto by {
                    if k < prev.len() {
                        assert(cur[k] == prev[k]);
                    } else {
                        assert(cur[k] == upto - 1);
                    }
                }
            }
        }
    }

    /// Every chord-list entry names a chord.
    proof fn lemma_chord_positions_are_chords(self, upto: int, i: int)
        requires
            0 <= i < self.chord_positions(upto).len(),
        ensures
            self.is_chord(self.chord_positions(upto)[i]),
        decreases upto,
    {
        if upto > 0 {
            if self.is_chord(upto - 1) && i == self.chord_positions(upto).len() - 1 {
            } else {
                self.lemma_chord_positions_are_chords(upto - 1, i);
            }
        }
    }

    /// With no chord the chord list is empty.
    proof fn lemma_no_chords_positions_empty(self, upto: int)
        requires
            forall|j: int| 0 <= j < upto ==> !(#[trigger] self.is_chord(j)),
        ensures
            self.chord_positions(upto).len() == 0,
        decreases upto,
    {
        if upto > 0 {
            self.lemma_no_chords_positions_empty(upto - 1);
        }
    }

    /// A chord among the first `upto` edges puts at least one entry in the
    /// chord list.
    proof fn lemma_chord_fills_positions(self, j: int, upto: int)
        requires
            self.is_chord(j),
            j < upto,
        ensures
            self.chord_positions(upto).len() > 0,
        decreases upto,
    {
        if upto - 1 > j {
            self.lemma_chord_fills_positions(j, upto - 1);
        }
    }

    /// An acyclic topology has an empty loop matrix, and conversely: the
    /// loop matrix has no rows exactly when no listed edge is a chord,
    /// that is, when the spanning forest accounts for every edge and no
    /// independent cycle exists.
    pub proof fn lemma_loop_rows_iff_chords(self)
        requires
            self.wf(),
        ensures
            (self.loop_matrix().len() == 0) <==> (forall|j: int|
                0 <= j < self.edge_list().len() ==> !(#[trigger] self.is_chord(j))),
    {
        let cols = self.edge_list().len() as int;
        if forall|j: int| 0 <= j < cols ==> !(#[trigger] self.is_chord(j)) {
            self.lemma_no_chords_positions_empty(cols);
        }
        if self.loop_matrix().len() == 0 {
            assert forall|j: int| 0 <= j < cols implies !(#[trigger] self.is_chord(j)) by {
                if self.is_chord(j) {
                    self.lemma_chord_fills_positions(j, cols);
                }
            }
        }
    }
}

} // verus!
