//! Dense signed-incidence matrix over small integer node identifiers.
//!
//! An edge `a -> b` is stored as `+1` at `(a, b)` and `-1` at `(b, a)`; the
//! matrix is always antisymmetric, so an edge is never represented by only
//! one of its two entries.

use vstd::prelude::*;

verus! {

/// Dense, zero-based identifier for a graph vertex. Indices are contiguous:
/// removing a node shifts every greater index down by one.
#[derive(Clone, Copy, PartialEq, Eq, Structural, Hash, Debug)]
pub struct NodeIndex(pub usize);

impl NodeIndex {
    /// The position of this node in the adjacency matrix.
    pub fn index(self) -> (r: usize)
        ensures
            r == self.0,
    {
        self.0
    }
}

/// Square adjacency matrix whose entries record signed incidence.
pub struct MatrixGraph {
    entries: Vec<Vec<i8>>,
}

impl MatrixGraph {
    /// How many nodes the matrix currently covers.
    pub closed spec fn nodes(self) -> nat {
        self.entries@.len()
    }

    /// The signed incidence entry in row `a`, column `b`.
    pub closed spec fn entry(self, a: int, b: int) -> int {
        self.entries@[a]@[b] as int
    }

    /// `v` names a node of this matrix.
    pub open spec fn valid(self, v: int) -> bool {
        0 <= v < self.nodes()
    }

    /// A directed edge `a -> b` is present.
    pub open spec fn edge(self, a: int, b: int) -> bool {
        self.entry(a, b) == 1
    }

    /// `a` and `b` are joined by an edge in some direction.
    pub open spec fn adjacent(self, a: int, b: int) -> bool {
        self.entry(a, b) != 0
    }

    /// How many directed edges the matrix holds: its `+1` entries. In an
    /// antisymmetric matrix this is exactly the number of undirected
    /// edges.
    pub closed spec fn edge_count(self) -> nat {
        rows_plus_count(self.entries@, self.entries@.len() as int, self.entries@.len() as int)
    }

    /// Every row is as long as the matrix is high.
    pub closed spec fn square(self) -> bool {
        forall|i: int|
            0 <= i < self.nodes() ==> (#[trigger] self.entries@[i]@.len()) == self.nodes()
    }

    /// The matrix is square, its entries lie in `{-1, 0, 1}`, and it is
    /// antisymmetric.
    pub open spec fn wf(self) -> bool {
        &&& self.square()
        &&& forall|a: int, b: int|
            self.valid(a) && self.valid(b) ==> -1 <= #[trigger] self.entry(a, b) <= 1
        &&& forall|a: int, b: int|
            self.valid(a) && self.valid(b) ==> #[trigger] self.entry(a, b) == -self.entry(b, a)
    }

    /// A fresh graph with the given node count and no edges.
    pub fn new(nodes_count: usize) -> (r: Self)
        ensures
            r.wf(),
            r.nodes() == nodes_count,
            r.edge_count() == 0,
            forall|a: int, b: int| r.valid(a) && r.valid(b) ==> #[trigger] r.entry(a, b) == 0,
    {
        let mut entries: Vec<Vec<i8>> = Vec::new();
        let mut i: usize = 0;
        while i < nodes_count
            invariant
                i <= nodes_count,
                entries@.len() == i,
                forall|k: int|
                    0 <= k < i ==> (#[trigger] entries@[k]@.len()) == nodes_count,
                forall|k: int, l: int|
                    0 <= k < i && 0 <= l < nodes_count ==> (#[trigger] entries@[k]@[l]) == 0i8,
            decreases nodes_count - i,
        {
            let mut row: Vec<i8> = Vec::new();
            let mut j: usize = 0;
            while j < nodes_count
                invariant
                    j <= nodes_count,
                    row@.len() == j,
                    forall|l: int| 0 <= l < j ==> (#[trigger] row@[l]) == 0i8,
                decreases nodes_count - j,
            {
                row.push(0i8);
                j = j + 1;
            }
            entries.push(row);
            i = i + 1;
        }
        proof {
            lemma_rows_plus_count_all_zero(entries@, nodes_count as int, nodes_count as int);
        }
        MatrixGraph { entries }
    }

    /// How many nodes the graph has.
    pub fn nodes_count(&self) -> (r: usize)
        ensures
            r == self.nodes(),
    {
        self.entries.len()
    }

    /// Writes one cell, leaving every other cell untouched.
    fn set_entry(&mut self, a: usize, b: usize, v: i8)
        requires
            old(self).square(),
            a < old(self).nodes(),
            b < old(self).nodes(),
        ensures
            final(self).square(),
            final(self).nodes() == old(self).nodes(),
            final(self).entry(a as int, b as int) == v,
            final(self).edge_count() == old(self).edge_count() + (if v == 1i8 {
                1int
            } else {
                0int
            }) - (if old(self).entry(a as int, b as int) == 1 {
                1int
            } else {
                0int
            }),
            forall|x: int, y: int|
                0 <= x < old(self).nodes() && 0 <= y < old(self).nodes()
                    && !(x == a && y == b)
                    ==> #[trigger] final(self).entry(x, y) == old(self).entry(x, y),
    {
        let row = &mut self.entries[a];
        row[b] = v;
        proof {
            let n = old(self).nodes() as int;
            assert(self.entries@[a as int]@ =~= old(self).entries@[a as int]@.update(b as int, v));
            assert(self.entries@ =~= old(self).entries@.update(a as int, self.entries@[a as int]));
            lemma_rows_plus_count_update(
                old(self).entries@,
                n,
                a as int,
                self.entries@[a as int],
                n,
            );
            lemma_row_plus_count_congruent(
                self.entries@[a as int]@,
                old(self).entries@[a as int]@.update(b as int, v),
                n,
            );
            lemma_row_plus_count_update(old(self).entries@[a as int]@, n, b as int, v);
            assert forall|x: int, y: int|
                0 <= x < old(self).nodes() && 0 <= y < old(self).nodes()
                    && !(x == a && y == b)
                implies #[trigger] self.entry(x, y) == old(self).entry(x, y) by {
                if x == a {
                    assert(self.entries@[x]@[y] == old(self).entries@[x]@[y]);
                } else {
                    assert(self.entries@[x] == old(self).entries@[x]);
                }
            }
        }
    }

    /// Records the directed edge `endpoints[0] -> endpoints[1]`.
    pub fn add_edge(&mut self, endpoints: [NodeIndex; 2])
        requires
            old(self).wf(),
            old(self).valid(endpoints[0].0 as int),
            old(self).valid(endpoints[1].0 as int),
            endpoints[0].0 != endpoints[1].0,
        ensures
            final(self).wf(),
            final(self).nodes() == old(self).nodes(),
            final(self).entry(endpoints[0].0 as int, endpoints[1].0 as int) == 1,
            final(self).entry(endpoints[1].0 as int, endpoints[0].0 as int) == -1,
            final(self).edge_count() == old(self).edge_count() + (if old(self).adjacent(
                endpoints[0].0 as int,
                endpoints[1].0 as int,
            ) {
                0int
            } else {
                1int
            }),
            forall|x: int, y: int|
                old(self).valid(x) && old(self).valid(y)
                    && !(x == endpoints[0].0 && y == endpoints[1].0)
                    && !(x == endpoints[1].0 && y == endpoints[0].0)
                    ==> #[trigger] final(self).entry(x, y) == old(self).entry(x, y),
    {
        let a = endpoints[0].0;
        let b = endpoints[1].0;
        proof {
            assert(old(self).entry(b as int, a as int) == -old(self).entry(a as int, b as int));
        }
        self.set_entry(a, b, 1i8);
        self.set_entry(b, a, -1i8);
    }

    /// Clears both incidence entries of the edge between the endpoints.
    pub fn remove_edge(&mut self, endpoints: [NodeIndex; 2])
        requires
            old(self).wf(),
            old(self).valid(endpoints[0].0 as int),
            old(self).valid(endpoints[1].0 as int),
        ensures
            final(self).wf(),
            final(self).nodes() == old(self).nodes(),
            final(self).entry(endpoints[0].0 as int, endpoints[1].0 as int) == 0,
            final(self).entry(endpoints[1].0 as int, endpoints[0].0 as int) == 0,
            endpoints[0].0 != endpoints[1].0 ==> final(self).edge_count() == old(
                self,
            ).edge_count() - (if old(self).adjacent(endpoints[0].0 as int, endpoints[1].0 as int) {
                1int
            } else {
                0int
            }),
            forall|x: int, y: int|
                old(self).valid(x) && old(self).valid(y)
                    && !(x == endpoints[0].0 && y == endpoints[1].0)
                    && !(x == endpoints[1].0 && y == endpoints[0].0)
                    ==> #[trigger] final(self).entry(x, y) == old(self).entry(x, y),
    {
        let a = endpoints[0].0;
        let b = endpoints[1].0;
        proof {
            assert(old(self).entry(b as int, a as int) == -old(self).entry(a as int, b as int));
        }
        self.set_entry(a, b, 0i8);
        self.set_entry(b, a, 0i8);
    }

    /// Whether the endpoints are joined by an edge in either direction.
    pub fn has_edge(&self, endpoints: [NodeIndex; 2]) -> (r: bool)
        requires
            self.wf(),
            self.valid(endpoints[0].0 as int),
            self.valid(endpoints[1].0 as int),
        ensures
            r == self.adjacent(endpoints[0].0 as int, endpoints[1].0 as int),
    {
        let a = endpoints[0].0;
        let b = endpoints[1].0;
        self.entries[a][b] == 1i8 || self.entries[b][a] == 1i8
    }

    /// Grows the matrix by one zero row and column; returns the new index.
    pub fn next_node(&mut self) -> (r: NodeIndex)
        requires
            old(self).wf(),
            old(self).nodes() < usize::MAX,
        ensures
            final(self).wf(),
            final(self).nodes() == old(self).nodes() + 1,
            r.0 == old(self).nodes(),
            final(self).edge_count() == old(self).edge_count(),
            forall|x: int, y: int|
                old(self).valid(x) && old(self).valid(y)
                    ==> #[trigger] final(self).entry(x, y) == old(self).entry(x, y),
            forall|x: int|
                final(self).valid(x) ==> #[trigger] final(self).entry(x, r.0 as int) == 0
                    && #[trigger] final(self).entry(r.0 as int, x) == 0,
    {
        let n = self.entries.len();
        let mut i: usize = 0;
        while i < n
            invariant
                i <= n,
                n < usize::MAX,
                self.entries@.len() == n,
                forall|k: int|
                    0 <= k < n ==> (#[trigger] self.entries@[k]@.len())
                        == if k < i { n + 1 } else { n as int },
                forall|k: int, l: int|
                    0 <= k < n && 0 <= l < n
                        ==> (#[trigger] self.entries@[k]@[l]) == old(self).entries@[k]@[l],
                forall|k: int| 0 <= k < i ==> (#[trigger] self.entries@[k]@[n as int]) == 0i8,
            decreases n - i,
        {
            let row = &mut self.entries[i];
            row.push(0i8);
            i = i + 1;
        }
        let mut row: Vec<i8> = Vec::new();
        let mut j: usize = 0;
        while j <= n
            invariant
                j <= n + 1,
                n < usize::MAX,
                row@.len() == j,
                forall|l: int| 0 <= l < j ==> (#[trigger] row@[l]) == 0i8,
            decreases n + 1 - j,
        {
            row.push(0i8);
            j = j + 1;
        }
        self.entries.push(row);
        proof {
            let ni = n as int;
            assert forall|k: int| 0 <= k < ni
                implies row_plus_count((#[trigger] self.entries@[k])@, ni + 1) == row_plus_count(
                    old(self).entries@[k]@,
                    ni,
                ) by {
                assert(self.entries@[k]@[ni] == 0i8);
                lemma_row_plus_count_congruent(self.entries@[k]@, old(self).entries@[k]@, ni);
            }
            lemma_rows_plus_count_pointwise(self.entries@, old(self).entries@, ni, ni + 1, ni);
            lemma_row_plus_count_zero(self.entries@[ni]@, ni + 1);
            assert(rows_plus_count(self.entries@, ni + 1, ni + 1) == rows_plus_count(
                self.entries@,
                ni,
                ni + 1,
            ) + row_plus_count(self.entries@[ni]@, ni + 1));
            assert(self.entries@.len() == n + 1);
            assert forall|k: int| 0 <= k < n + 1
                implies (#[trigger] self.entries@[k]@.len()) == n + 1 by {}
            assert forall|x: int, y: int| 0 <= x < n + 1 && 0 <= y < n + 1
                implies -1 <= #[trigger] self.entry(x, y) <= 1
                    && self.entry(x, y) == -self.entry(y, x) by {
                if x < n && y < n {
                    assert(self.entry(x, y) == old(self).entry(x, y));
                    assert(self.entry(y, x) == old(self).entry(y, x));
                } else {
                    assert(x == n || y == n);
                    assert(self.entry(x, y) == 0 && self.entry(y, x) == 0);
                }
            }
        }
        NodeIndex(n)
    }

    /// The nodes with nonzero incidence to `node`, in either direction,
    /// in ascending index order; exactly the adjacent nodes, each once.
    pub fn neighbour_nodes(&self, node: NodeIndex) -> (r: Vec<NodeIndex>)
        requires
            self.wf(),
            self.valid(node.0 as int),
        ensures
            forall|k: int|
                0 <= k < r@.len() ==> self.valid((#[trigger] r@[k]).0 as int)
                    && self.adjacent(node.0 as int, r@[k].0 as int),
            forall|w: int|
                self.valid(w) && self.adjacent(node.0 as int, w)
                    ==> exists|k: int| 0 <= k < r@.len() && (#[trigger] r@[k]).0 == w,
            forall|k1: int, k2: int| 0 <= k1 < k2 < r@.len() ==> r@[k1].0 < r@[k2].0,
    {
        let n = self.entries.len();
        let mut r: Vec<NodeIndex> = Vec::new();
        let mut j: usize = 0;
        while j < n
            invariant
                j <= n,
                self.wf(),
                self.nodes() == n,
                self.valid(node.0 as int),
                forall|k: int|
                    0 <= k < r@.len() ==> self.valid((#[trigger] r@[k]).0 as int)
                        && self.adjacent(node.0 as int, r@[k].0 as int)
                        && r@[k].0 < j,
                forall|w: int|
                    0 <= w < j && self.adjacent(node.0 as int, w)
                        ==> exists|k: int| 0 <= k < r@.len() && (#[trigger] r@[k]).0 == w,
                forall|k1: int, k2: int| 0 <= k1 < k2 < r@.len() ==> r@[k1].0 < r@[k2].0,
            decreases n - j,
        {
            if self.entries[node.0][j] != 0i8 {
                let ghost r0 = r@;
                r.push(NodeIndex(j));
                proof {
                    assert forall|w: int|
                        0 <= w < j + 1 && self.adjacent(node.0 as int, w)
                        implies exists|k: int|
                            0 <= k < r@.len() && (#[trigger] r@[k]).0 == w by {
                        if w == j {
                            assert(r@[r@.len() - 1].0 == w);
                        } else {
                            let k = choose|k: int|
                                0 <= k < r0.len() && (#[trigger] r0[k]).0 == w;
                            assert(r@[k].0 == w);
                        }
                    }
                }
            }
            j = j + 1;
        }
        r
    }

    /// All directed edges, as the `[tail, head]` pairs whose entry is `+1`,
    /// each exactly once, in strictly ascending row-major order.
    pub fn edges(&self) -> (r: Vec<[NodeIndex; 2]>)
        requires
            self.wf(),
        ensures
            forall|k: int|
                0 <= k < r@.len() ==> self.valid((#[trigger] r@[k])[0].0 as int)
                    && self.valid(r@[k][1].0 as int)
                    && self.edge(r@[k][0].0 as int, r@[k][1].0 as int),
            forall|a: int, b: int|
                self.valid(a) && self.valid(b) && #[trigger] self.edge(a, b)
                    ==> exists|k: int|
                    0 <= k < r@.len() && (#[trigger] r@[k])[0].0 == a && r@[k][1].0 == b,
            forall|k1: int, k2: int|
                0 <= k1 < k2 < r@.len() ==> (#[trigger] r@[k1])[0].0 < (#[trigger] r@[k2])[0].0
                    || (r@[k1][0].0 == r@[k2][0].0 && r@[k1][1].0 < r@[k2][1].0),
    {
        let n = self.entries.len();
        let mut r: Vec<[NodeIndex; 2]> = Vec::new();
        let mut a: usize = 0;
        while a < n
            invariant
                a <= n,
                self.wf(),
                self.nodes() == n,
                forall|k: int|
                    0 <= k < r@.len() ==> self.valid((#[trigger] r@[k])[0].0 as int)
                        && self.valid(r@[k][1].0 as int)
                        && self.edge(r@[k][0].0 as int, r@[k][1].0 as int),
                forall|x: int, y: int|
                    0 <= x < a && 0 <= y < n && #[trigger] self.edge(x, y)
                        ==> exists|k: int|
                        0 <= k < r@.len() && (#[trigger] r@[k])[0].0 == x && r@[k][1].0 == y,
                forall|k1: int, k2: int|
                    0 <= k1 < k2 < r@.len()
                        ==> (#[trigger] r@[k1])[0].0 < (#[trigger] r@[k2])[0].0
                            || (r@[k1][0].0 == r@[k2][0].0 && r@[k1][1].0 < r@[k2][1].0),
                forall|k: int|
                    0 <= k < r@.len() ==> (#[trigger] r@[k])[0].0 < a,
            decreases n - a,
        {
            let mut b: usize = 0;
            while b < n
                invariant
                    b <= n,
                    a < n,
                    self.wf(),
                    self.nodes() == n,
                    forall|k: int|
                        0 <= k < r@.len() ==> self.valid((#[trigger] r@[k])[0].0 as int)
                            && self.valid(r@[k][1].0 as int)
                            && self.edge(r@[k][0].0 as int, r@[k][1].0 as int),
                    forall|x: int, y: int|
                        0 <= x < a && 0 <= y < n && #[trigger] self.edge(x, y)
                            ==> exists|k: int|
                            0 <= k < r@.len() && (#[trigger] r@[k])[0].0 == x && r@[k][1].0 == y,
                    forall|y: int|
                        0 <= y < b && #[trigger] self.edge(a as int, y)
                            ==> exists|k: int|
                            0 <= k < r@.len() && (#[trigger] r@[k])[0].0 == a && r@[k][1].0 == y,
                    forall|k1: int, k2: int|
                        0 <= k1 < k2 < r@.len()
                            ==> (#[trigger] r@[k1])[0].0 < (#[trigger] r@[k2])[0].0
                                || (r@[k1][0].0 == r@[k2][0].0 && r@[k1][1].0 < r@[k2][1].0),
                    forall|k: int|
                        0 <= k < r@.len() ==> (#[trigger] r@[k])[0].0 < a
                            || (r@[k][0].0 == a && r@[k][1].0 < b),
                decreases n - b,
            {
                if self.entries[a][b] == 1i8 {
                    let ghost r0 = r@;
                    r.push([NodeIndex(a), NodeIndex(b)]);
                    proof {
                        assert(r@[r@.len() - 1][0].0 == a && r@[r@.len() - 1][1].0 == b);
                        assert forall|x: int, y: int|
                            0 <= x < a && 0 <= y < n && #[trigger] self.edge(x, y)
                            implies exists|k: int|
                                0 <= k < r@.len() && (#[trigger] r@[k])[0].0 == x
                                    && r@[k][1].0 == y by {
                            let k = choose|k: int|
                                0 <= k < r0.len() && (#[trigger] r0[k])[0].0 == x
                                    && r0[k][1].0 == y;
                            assert(r@[k] == r0[k]);
                        }
                        assert forall|y: int|
                            0 <= y < b + 1 && #[trigger] self.edge(a as int, y)
                            implies exists|k: int|
                                0 <= k < r@.len() && (#[trigger] r@[k])[0].0 == a
                                    && r@[k][1].0 == y by {
                            if y == b {
                                assert(r@[r@.len() - 1][1].0 == y);
                            } else {
                                let k = choose|k: int|
                                    0 <= k < r0.len() && (#[trigger] r0[k])[0].0 == a
                                        && r0[k][1].0 == y;
                                assert(r@[k] == r0[k]);
                            }
                        }
                    }
                }
                b = b + 1;
            }
            a = a + 1;
        }
        r
    }

    /// Where a surviving index stood before node `r` was removed.
    pub open spec fn shift_from(r: int, x: int) -> int {
        if x < r {
            x
        } else {
            x + 1
        }
    }

    /// Deletes row and column `node`, shifting all later indices down by one.
    /// Callers must already have translated or dropped references to indices
    /// at or above `node`.
    pub fn remove_node(&mut self, node: NodeIndex)
        requires
            old(self).wf(),
            old(self).valid(node.0 as int),
        ensures
            final(self).wf(),
            final(self).nodes() == old(self).nodes() - 1,
            forall|x: int, y: int|
                final(self).valid(x) && final(self).valid(y)
                    ==> #[trigger] final(self).entry(x, y) == old(self).entry(
                        Self::shift_from(node.0 as int, x),
                        Self::shift_from(node.0 as int, y),
                    ),
    {
        let r = node.0;
        self.entries.remove(r);
        proof {
            old(self).entries@.remove_ensures(r as int);
        }
        let n = self.entries.len();
        let mut i: usize = 0;
        while i < n
            invariant
                i <= n,
                r <= n,
                self.entries@.len() == n,
                n + 1 == old(self).nodes(),
                old(self).wf(),
                forall|k: int|
                    i <= k < n ==> (#[trigger] self.entries@[k])
                        == old(self).entries@[Self::shift_from(r as int, k)],
                forall|k: int|
                    0 <= k < i ==> (#[trigger] self.entries@[k]@)
                        == old(self).entries@[Self::shift_from(r as int, k)]@.remove(r as int),
            decreases n - i,
        {
            proof {
                assert(self.entries@[i as int]@.len() == n + 1);
            }
            let row = &mut self.entries[i];
            row.remove(r);
            proof {
                old(self).entries@[Self::shift_from(r as int, i as int)]@.remove_ensures(
                    r as int,
                );
            }
            i = i + 1;
        }
        proof {
            assert forall|x: int, y: int| 0 <= x < n && 0 <= y < n
                implies #[trigger] self.entry(x, y) == old(self).entry(
                    Self::shift_from(r as int, x),
                    Self::shift_from(r as int, y),
                ) by {
                old(self).entries@[Self::shift_from(r as int, x)]@.remove_ensures(r as int);
            }
            assert forall|k: int| 0 <= k < n
                implies (#[trigger] self.entries@[k]@.len()) == n by {
                old(self).entries@[Self::shift_from(r as int, k)]@.remove_ensures(r as int);
            }
        }
    }
}


/// How many entries of the row prefix `row[0..upto]` hold `+1`.
pub open spec fn row_plus_count(row: Seq<i8>, upto: int) -> nat
    decreases upto,
{
    if upto <= 0 {
        0
    } else {
        row_plus_count(row, upto - 1) + if row[upto - 1] == 1i8 {
            1nat
        } else {
            0nat
        }
    }
}

/// How many `+1` entries the first `upto` rows hold in their first `cols`
/// columns.
pub open spec fn rows_plus_count(rows: Seq<Vec<i8>>, upto: int, cols: int) -> nat
    decreases upto,
{
    if upto <= 0 {
        0
    } else {
        rows_plus_count(rows, upto - 1, cols) + row_plus_count(rows[upto - 1]@, cols)
    }
}

/// Updating one cell moves a row's `+1` count by the sign change at that
/// cell alone.
pub proof fn lemma_row_plus_count_update(row: Seq<i8>, upto: int, i: int, v: i8)
    requires
        0 <= i < row.len(),
        upto <= row.len(),
    ensures
        row_plus_count(row.update(i, v), upto) == row_plus_count(row, upto) + (if i < upto {
            (if v == 1i8 {
                1int
            } else {
                0int
            }) - (if row[i] == 1i8 {
                1int
            } else {
                0int
            })
        } else {
            0int
        }),
    decreases upto,
{
    if upto > 0 {
        lemma_row_plus_count_update(row, upto - 1, i, v);
    }
}

/// Replacing one row moves the total `+1` count by that row's difference.
pub proof fn lemma_rows_plus_count_update(
    rows: Seq<Vec<i8>>,
    upto: int,
    i: int,
    row: Vec<i8>,
    cols: int,
)
    requires
        0 <= i < rows.len(),
        upto <= rows.len(),
    ensures
        rows_plus_count(rows.update(i, row), upto, cols) == rows_plus_count(rows, upto, cols)
            + (if i < upto {
            row_plus_count(row@, cols) - row_plus_count(rows[i]@, cols)
        } else {
            0int
        }),
    decreases upto,
{
    if upto > 0 {
        lemma_rows_plus_count_update(rows, upto - 1, i, row, cols);
    }
}

/// A row's `+1` count reads only the prefix it is asked about.
pub proof fn lemma_row_plus_count_congruent(r1: Seq<i8>, r2: Seq<i8>, upto: int)
    requires
        forall|k: int| 0 <= k < upto ==> r1[k] == r2[k],
    ensures
        row_plus_count(r1, upto) == row_plus_count(r2, upto),
    decreases upto,
{
    if upto > 0 {
        lemma_row_plus_count_congruent(r1, r2, upto - 1);
    }
}

/// An all-zero prefix holds no `+1` entry.
pub proof fn lemma_row_plus_count_zero(r: Seq<i8>, upto: int)
    requires
        forall|k: int| 0 <= k < upto ==> r[k] == 0i8,
    ensures
        row_plus_count(r, upto) == 0,
    decreases upto,
{
    if upto > 0 {
        lemma_row_plus_count_zero(r, upto - 1);
    }
}

/// Rows of zeroes hold no `+1` entry.
pub proof fn lemma_rows_plus_count_all_zero(rows: Seq<Vec<i8>>, upto: int, cols: int)
    requires
        forall|k: int, l: int|
            #![trigger rows[k]@[l]]
            0 <= k < upto && 0 <= l < cols ==> rows[k]@[l] == 0i8,
    ensures
        rows_plus_count(rows, upto, cols) == 0,
    decreases upto,
{
    if upto > 0 {
        lemma_rows_plus_count_all_zero(rows, upto - 1, cols);
        lemma_row_plus_count_zero(rows[upto - 1]@, cols);
    }
}

/// Totals agree when the rows' counted prefixes agree pairwise.
pub proof fn lemma_rows_plus_count_pointwise(
    rows1: Seq<Vec<i8>>,
    rows2: Seq<Vec<i8>>,
    upto: int,
    c1: int,
    c2: int,
)
    requires
        forall|k: int|
            0 <= k < upto ==> row_plus_count((#[trigger] rows1[k])@, c1) == row_plus_count(
                rows2[k]@,
                c2,
            ),
    ensures
        rows_plus_count(rows1, upto, c1) == rows_plus_count(rows2, upto, c2),
    decreases upto,
{
    if upto > 0 {
        lemma_rows_plus_count_pointwise(rows1, rows2, upto - 1, c1, c2);
    }
}

/// An undirected walk through `m`: a nonempty node sequence from `a` to
/// `b` whose consecutive entries are adjacent.
pub open spec fn is_walk(m: MatrixGraph, p: Seq<int>, a: int, b: int) -> bool {
    &&& p.len() >= 1
    &&& p[0] == a
    &&& p[p.len() - 1] == b
    &&& forall|i: int| 0 <= i < p.len() ==> m.valid(#[trigger] p[i])
    &&& forall|i: int| 0 <= i < p.len() - 1 ==> m.adjacent(#[trigger] p[i], p[i + 1])
}

/// `a` and `b` lie in one connected component of `m`.
pub open spec fn linked(m: MatrixGraph, a: int, b: int) -> bool {
    exists|p: Seq<int>| is_walk(m, p, a, b)
}

/// Every node is linked to itself.
pub proof fn lemma_linked_refl(m: MatrixGraph, a: int)
    requires
        m.valid(a),
    ensures
        linked(m, a, a),
{
    assert(is_walk(m, seq![a], a, a));
}

/// A walk extends along one more edge.
pub proof fn lemma_linked_step(m: MatrixGraph, a: int, b: int, c: int)
    requires
        linked(m, a, b),
        m.adjacent(b, c),
        m.valid(c),
    ensures
        linked(m, a, c),
{
    let p = choose|p: Seq<int>| is_walk(m, p, a, b);
    let q = p.push(c);
    assert forall|i: int| 0 <= i < q.len() - 1 implies m.adjacent(#[trigger] q[i], q[i + 1]) by {
        if i < p.len() - 1 {
            assert(q[i] == p[i] && q[i + 1] == p[i + 1]);
        } else {
            assert(q[i] == b && q[i + 1] == c);
        }
    }
    assert(is_walk(m, q, a, c));
}

/// Walks concatenate.
pub proof fn lemma_linked_trans(m: MatrixGraph, a: int, b: int, c: int)
    requires
        linked(m, a, b),
        linked(m, b, c),
    ensures
        linked(m, a, c),
{
    let p = choose|p: Seq<int>| is_walk(m, p, a, b);
    let q = choose|q: Seq<int>| is_walk(m, q, b, c);
    let r = p + q.subrange(1, q.len() as int);
    assert(r[0] == a);
    assert(r.len() == p.len() + q.len() - 1);
    assert(r[r.len() - 1] == if q.len() == 1 {
        p[p.len() - 1]
    } else {
        q[q.len() - 1]
    });
    assert forall|i: int| 0 <= i < r.len() implies m.valid(#[trigger] r[i]) by {
        if i < p.len() {
            assert(r[i] == p[i]);
        } else {
            assert(r[i] == q[i - p.len() + 1]);
        }
    }
    assert forall|i: int| 0 <= i < r.len() - 1 implies m.adjacent(#[trigger] r[i], r[i + 1]) by {
        if i < p.len() - 1 {
            assert(r[i] == p[i] && r[i + 1] == p[i + 1]);
        } else if i == p.len() - 1 {
            assert(r[i] == b);
            if q.len() >= 2 {
                assert(r[i + 1] == q[1]);
                assert(m.adjacent(q[0], q[1]));
            }
        } else {
            assert(r[i] == q[i - p.len() + 1]);
            assert(r[i + 1] == q[i - p.len() + 2]);
            assert(m.adjacent(q[i - p.len() + 1], q[i - p.len() + 2]));
        }
    }
    assert(is_walk(m, r, a, c));
}

/// In a well-formed matrix adjacency has no direction, so neither does
/// linkedness.
pub proof fn lemma_linked_sym(m: MatrixGraph, a: int, b: int)
    requires
        m.wf(),
        linked(m, a, b),
    ensures
        linked(m, b, a),
{
    let p = choose|p: Seq<int>| is_walk(m, p, a, b);
    let r = Seq::new(p.len(), |i: int| p[p.len() - 1 - i]);
    assert forall|i: int| 0 <= i < r.len() - 1 implies m.adjacent(#[trigger] r[i], r[i + 1]) by {
        let k = p.len() - 1 - i;
        assert(r[i] == p[k] && r[i + 1] == p[k - 1]);
        assert(m.adjacent(p[k - 1], p[k]));
        assert(m.entry(p[k], p[k - 1]) == -m.entry(p[k - 1], p[k]));
    }
    assert(r[0] == b && r[r.len() - 1] == a);
    assert(is_walk(m, r, b, a));
}

/// A walk survives in any matrix that keeps every adjacency of the old
/// one.
pub proof fn lemma_linked_mono(m1: MatrixGraph, m2: MatrixGraph, a: int, b: int)
    requires
        linked(m1, a, b),
        m1.nodes() <= m2.nodes(),
        forall|x: int, y: int|
            m1.valid(x) && m1.valid(y) && #[trigger] m1.adjacent(x, y) ==> m2.adjacent(x, y),
    ensures
        linked(m2, a, b),
{
    let p = choose|p: Seq<int>| is_walk(m1, p, a, b);
    assert forall|i: int| 0 <= i < p.len() - 1 implies m2.adjacent(#[trigger] p[i], p[i + 1]) by {
        assert(m1.adjacent(p[i], p[i + 1]));
    }
    assert(is_walk(m2, p, a, b));
}

} // verus!
