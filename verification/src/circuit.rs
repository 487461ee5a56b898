//! The public engine: maps caller-supplied endpoint labels to internal node
//! indices, owns the per-element payloads, and keeps the topology layer in
//! step with every edit.
//!
//! The label map and the node set move together: a label always resolves to
//! the same node while any element still uses it, and a node whose last
//! incident element goes away is deleted together with its label mapping,
//! both in `remove` and in `change`. Elements are kept in loop-matrix
//! column order, so the payload at position `i` belongs to column `i` of
//! the loop matrix.

use vstd::prelude::*;
use crate::element::ElementPos;
use crate::graph::CircuitGraph;
use crate::matrix::NodeIndex;

verus! {

/// Opaque, monotonically increasing identifier of an element. Never reused
/// within a session.
#[derive(Clone, Copy, PartialEq, Eq, Structural, Hash, Debug)]
pub struct ElementId(pub usize);

/// The ways an edit can be refused.
#[derive(Clone, Copy, PartialEq, Eq, Structural, Debug)]
pub enum CircuitError {
    /// The element id names no live element.
    UnknownElement,
    /// Both endpoints carry the same label: self-loops are rejected.
    SelfLoop,
}

/// An element under the pointer, and which of its two endpoints, if one.
pub struct Hovered {
    pub id: ElementId,
    pub endpoint: Option<usize>,
}

/// One element entry: its id and its two endpoint nodes. The direction of
/// the endpoint pair is significant: it fixes the sign convention of the
/// solved current. The payload lives beside the entry, at the same
/// position of the payload list.
#[derive(Clone, Copy)]
pub struct CircuitElement {
    pub id: ElementId,
    pub endpoints: [NodeIndex; 2],
}

impl CircuitElement {
    /// Packs an element entry.
    pub fn new(id: ElementId, endpoints: [NodeIndex; 2]) -> (r: Self)
        ensures
            r.id == id,
            r.endpoints == endpoints,
    {
        CircuitElement { id, endpoints }
    }
}

/// `l` occurs among the labels `s`.
pub open spec fn label_in(s: Seq<ElementPos>, l: ElementPos) -> bool {
    exists|k: int| 0 <= k < s.len() && s[k] == l
}

/// The label list after resolving the two endpoint labels of a new
/// element: a label not yet present is appended, first `la`, then `lb`.
pub open spec fn add_labels(s: Seq<ElementPos>, la: ElementPos, lb: ElementPos) -> Seq<
    ElementPos,
> {
    let s1 = if label_in(s, la) {
        s
    } else {
        s.push(la)
    };
    if label_in(s1, lb) {
        s1
    } else {
        s1.push(lb)
    }
}

/// Some element of `view` has `l` as one of its endpoint labels.
pub open spec fn label_used(view: Seq<(ElementId, ElementPos, ElementPos)>, l: ElementPos) -> bool {
    exists|k: int| 0 <= k < view.len() && ((#[trigger] view[k]).1 == l || view[k].2 == l)
}

/// The label list after an element with endpoint labels `la`, `lb` left:
/// each label no remaining element uses is dropped, first `la`, then `lb`.
pub open spec fn prune_labels(
    s: Seq<ElementPos>,
    la: ElementPos,
    lb: ElementPos,
    remaining: Seq<(ElementId, ElementPos, ElementPos)>,
) -> Seq<ElementPos> {
    let s1 = if label_used(remaining, la) {
        s
    } else {
        s.remove_value(la)
    };
    if label_used(remaining, lb) {
        s1
    } else {
        s1.remove_value(lb)
    }
}

/// No label occurs twice in `s`.
pub open spec fn labels_distinct(s: Seq<ElementPos>) -> bool {
    forall|i: int, j: int| 0 <= i < j < s.len() ==> s[i] != s[j]
}

/// What dropping one label value leaves behind: the value is gone, no
/// duplicate appears, and no other label is disturbed.
proof fn lemma_remove_value_facts(s: Seq<ElementPos>, x: ElementPos)
    requires
        labels_distinct(s),
    ensures
        !label_in(s.remove_value(x), x),
        labels_distinct(s.remove_value(x)),
        forall|y: ElementPos| #![trigger label_in(s.remove_value(x), y)]
            label_in(s.remove_value(x), y) ==> label_in(s, y),
{
    s.index_of_first_ensures(x);
    match s.index_of_first(x) {
        Option::None => {
            assert forall|y: ElementPos| #![trigger label_in(s.remove_value(x), y)]
                label_in(s.remove_value(x), y) implies label_in(s, y) by {}
            assert(!label_in(s, x)) by {
                if label_in(s, x) {
                    let k = choose|k: int| 0 <= k < s.len() && s[k] == x;
                    assert(s.contains(x));
                }
            }
        },
        Option::Some(idx) => {
            s.remove_ensures(idx);
            let t = s.remove_value(x);
            assert(t == s.remove(idx));
            assert forall|k: int| 0 <= k < t.len() implies #[trigger] t[k] != x by {
                if k < idx {
                    assert(t[k] == s[k]);
                } else {
                    assert(t[k] == s[k + 1]);
                }
            }
            assert(!label_in(t, x));
            assert forall|i: int, j: int| 0 <= i < j < t.len() implies t[i] != t[j] by {
                let i0: int = if i < idx {
                    i
                } else {
                    i + 1
                };
                let j0: int = if j < idx {
                    j
                } else {
                    j + 1
                };
                assert(t[i] == s[i0] && t[j] == s[j0]);
            }
            assert forall|y: ElementPos| #![trigger label_in(t, y)]
                label_in(t, y) implies label_in(s, y) by {
                let k = choose|k: int| 0 <= k < t.len() && t[k] == y;
                let k0: int = if k < idx {
                    k
                } else {
                    k + 1
                };
                assert(s[k0] == y);
            }
        },
    }
}

/// Dropping an element's two labels shrinks the label list by at most
/// two entries: one per endpoint that became unused.
pub proof fn lemma_prune_labels_len(
    s: Seq<ElementPos>,
    la: ElementPos,
    lb: ElementPos,
    remaining: Seq<(ElementId, ElementPos, ElementPos)>,
)
    ensures
        s.len() - 2 <= prune_labels(s, la, lb, remaining).len() <= s.len(),
        label_used(remaining, la) && label_used(remaining, lb) ==> prune_labels(
            s,
            la,
            lb,
            remaining,
        ).len() == s.len(),
{
    s.index_of_first_ensures(la);
    if s.index_of_first(la) is Some {
        s.remove_ensures(s.index_of_first(la)->Some_0);
    }
    let s1 = if label_used(remaining, la) {
        s
    } else {
        s.remove_value(la)
    };
    s1.index_of_first_ensures(lb);
    if s1.index_of_first(lb) is Some {
        s1.remove_ensures(s1.index_of_first(lb)->Some_0);
    }
}

/// `id` names an element of `view`.
pub open spec fn id_in(view: Seq<(ElementId, ElementPos, ElementPos)>, id: ElementId) -> bool {
    exists|k: int| 0 <= k < view.len() && (#[trigger] view[k]).0 == id
}

/// The position of `id` in `view`.
pub open spec fn id_index(view: Seq<(ElementId, ElementPos, ElementPos)>, id: ElementId) -> int {
    choose|k: int| 0 <= k < view.len() && (#[trigger] view[k]).0 == id
}

/// Some entry of `elems` has node `v` as an endpoint.
pub open spec fn seq_node_used(elems: Seq<CircuitElement>, v: int) -> bool {
    exists|i: int|
        0 <= i < elems.len() && ((#[trigger] elems[i]).endpoints[0].0 == v
            || elems[i].endpoints[1].0 == v)
}

/// The engine. `C` is the payload each element carries; the engine stores
/// and returns payloads but never inspects them: physics stays with the
/// numeric front end that reads the loop matrix.
pub struct Circuit<C> {
    graph: CircuitGraph,
    labels: Vec<ElementPos>,
    elements: Vec<CircuitElement>,
    conductors: Vec<C>,
    ids_count: usize,
}

impl<C> Circuit<C> {
    /// The label of each node, by node index.
    pub closed spec fn labels_seq(self) -> Seq<ElementPos> {
        self.labels@
    }

    /// How many nodes the engine currently has.
    pub open spec fn node_count(self) -> nat {
        self.labels_seq().len()
    }

    /// Each element as `(id, first endpoint label, second endpoint label)`,
    /// in loop-matrix column order.
    pub closed spec fn element_view(self) -> Seq<(ElementId, ElementPos, ElementPos)> {
        Seq::new(
            self.elements@.len(),
            |i: int|
                (
                    self.elements@[i].id,
                    self.labels@[self.elements@[i].endpoints[0].0 as int],
                    self.labels@[self.elements@[i].endpoints[1].0 as int],
                ),
        )
    }

    /// The payloads, in the same order as `element_view`.
    pub closed spec fn conductor_seq(self) -> Seq<C> {
        self.conductors@
    }

    /// The node a mapped label stands for.
    pub closed spec fn label_node(self, l: ElementPos) -> int {
        choose|v: int| 0 <= v < self.labels@.len() && self.labels@[v] == l
    }

    /// Both labels are mapped and their nodes lie in one connected
    /// component, so an element between them would close a cycle.
    pub closed spec fn labels_linked(self, la: ElementPos, lb: ElementPos) -> bool {
        &&& label_in(self.labels_seq(), la)
        &&& label_in(self.labels_seq(), lb)
        &&& self.graph.same_component(self.label_node(la), self.label_node(lb))
    }

    /// The endpoint labels of the edge behind loop-matrix column `k`.
    pub closed spec fn column_labels(self, k: int) -> (ElementPos, ElementPos) {
        (
            self.labels@[self.graph.edge_list()[k][0].0 as int],
            self.labels@[self.graph.edge_list()[k][1].0 as int],
        )
    }

    /// The id the next added element will get.
    pub closed spec fn next_id(self) -> nat {
        self.ids_count as nat
    }

    /// The loop matrix the engine currently derives: one row per
    /// independent cycle, one column per element.
    pub closed spec fn loop_matrix(self) -> Seq<Seq<i8>> {
        self.graph.loop_matrix()
    }

    /// How many loop-matrix rows the engine currently derives.
    pub open spec fn loop_row_count(self) -> nat {
        self.loop_matrix().len()
    }

    /// The core invariant: the graph, the label map and the element list
    /// agree, labels are unique, each element's endpoints are the nodes
    /// its labels map to, each element has a payload, and element ids are
    /// unique and below the counter.
    pub closed spec fn wf_core(self) -> bool {
        &&& self.graph.wf()
        &&& self.labels@.len() == self.graph.nodes()
        &&& forall|i: int, j: int|
            0 <= i < j < self.labels@.len() ==> self.labels@[i] != self.labels@[j]
        &&& self.elements@.len() == self.graph.edge_list().len()
        &&& self.conductors@.len() == self.elements@.len()
        &&& forall|i: int|
            0 <= i < self.elements@.len()
                ==> (#[trigger] self.elements@[i]).endpoints[0] == self.graph.edge_list()[i][0]
                    && self.elements@[i].endpoints[1] == self.graph.edge_list()[i][1]
        &&& forall|i: int|
            0 <= i < self.elements@.len() ==> (#[trigger] self.elements@[i]).id.0 < self.ids_count
        &&& forall|i: int, j: int|
            0 <= i < j < self.elements@.len() ==> self.elements@[i].id != self.elements@[j].id
    }

    /// Some element has node `v` as an endpoint.
    pub closed spec fn node_used(self, v: int) -> bool {
        seq_node_used(self.elements@, v)
    }

    /// No node is an orphan: every node is an endpoint of some element.
    pub closed spec fn orphan_free(self) -> bool {
        forall|v: int|
            0 <= v < self.labels@.len() ==> #[trigger] seq_node_used(self.elements@, v)
    }

    /// The structural invariant of a quiescent engine.
    pub open spec fn wf(self) -> bool {
        self.wf_core() && self.orphan_free()
    }

    /// Loop-matrix column `k` belongs to element `k`: the column's edge
    /// joins exactly the element's two endpoint labels, in the element's
    /// stored orientation. This is the binding the per-tick solve relies
    /// on when it hands branch current `k` to element `k`.
    pub proof fn lemma_columns_match_elements(self)
        requires
            self.wf(),
        ensures
            forall|k: int|
                0 <= k < self.element_view().len() ==> #[trigger] self.column_labels(k) == (
                    self.element_view()[k].1,
                    self.element_view()[k].2,
                ),
    {
        assert forall|k: int|
            0 <= k < self.element_view().len() implies #[trigger] self.column_labels(k) == (
                self.element_view()[k].1,
                self.element_view()[k].2,
            ) by {
            assert(self.elements@[k].endpoints[0] == self.graph.edge_list()[k][0]);
            assert(self.elements@[k].endpoints[1] == self.graph.edge_list()[k][1]);
        }
    }

    /// The engine's bookkeeping is collision-free: labels are pairwise
    /// distinct, element ids are pairwise distinct, and every live id lies
    /// below the counter the next `add` will use.
    pub proof fn lemma_engine_distinct(self)
        requires
            self.wf(),
        ensures
            labels_distinct(self.labels_seq()),
            forall|k1: int, k2: int|
                0 <= k1 < k2 < self.element_view().len()
                    ==> (#[trigger] self.element_view()[k1]).0
                        != (#[trigger] self.element_view()[k2]).0,
            forall|k: int|
                0 <= k < self.element_view().len()
                    ==> ((#[trigger] self.element_view()[k]).0).0 < self.next_id(),
    {
        assert forall|k1: int, k2: int|
            0 <= k1 < k2 < self.element_view().len()
            implies (#[trigger] self.element_view()[k1]).0
                != (#[trigger] self.element_view()[k2]).0 by {
            assert(self.element_view()[k1].0 == self.elements@[k1].id);
            assert(self.element_view()[k2].0 == self.elements@[k2].id);
        }
    }

    /// An empty engine: no elements, no nodes, no loops.
    pub fn new() -> (r: Self)
        ensures
            r.wf(),
            r.element_view().len() == 0,
            r.labels_seq().len() == 0,
            r.next_id() == 0,
            r.loop_row_count() == 0,
    {
        Circuit {
            graph: CircuitGraph::new(),
            labels: Vec::new(),
            elements: Vec::new(),
            conductors: Vec::new(),
            ids_count: 0,
        }
    }

    /// The node a label resolves to, if it is mapped.
    fn find_label(&self, label: ElementPos) -> (r: Option<usize>)
        ensures
            match r {
                Some(i) => i < self.labels_seq().len() && self.labels_seq()[i as int] == label,
                None => !label_in(self.labels_seq(), label),
            },
    {
        let count = self.labels.len();
        let mut i: usize = 0;
        while i < count
            invariant
                i <= count,
                count == self.labels@.len(),
                forall|k: int| 0 <= k < i ==> self.labels@[k] != label,
            decreases count - i,
        {
            if self.labels[i] == label {
                return Some(i);
            }
            i = i + 1;
        }
        None
    }

    /// Resolves a label to its node, creating a fresh node lazily when the
    /// label is new.
    fn resolve_label(&mut self, label: ElementPos) -> (r: NodeIndex)
        requires
            old(self).wf_core(),
            old(self).node_count() < usize::MAX,
        ensures
            final(self).wf_core(),
            final(self).labels_seq() == if label_in(old(self).labels_seq(), label) {
                old(self).labels_seq()
            } else {
                old(self).labels_seq().push(label)
            },
            r.0 < final(self).labels_seq().len(),
            final(self).labels_seq()[r.0 as int] == label,
            final(self).elements@ == old(self).elements@,
            final(self).conductors@ == old(self).conductors@,
            final(self).graph.edge_list() == old(self).graph.edge_list(),
            final(self).ids_count == old(self).ids_count,
            label_in(old(self).labels_seq(), label) ==> *final(self) == *old(self),
            !label_in(old(self).labels_seq(), label) ==> r.0 == old(self).labels_seq().len(),
            final(self).loop_row_count() == old(self).loop_row_count(),
            !label_in(old(self).labels_seq(), label) ==> {
                &&& forall|x: int, y: int|
                    0 <= x < old(self).node_count() && 0 <= y < old(self).node_count()
                        ==> #[trigger] final(self).graph.same_component(x, y)
                            == old(self).graph.same_component(x, y)
                &&& forall|x: int|
                    0 <= x < old(self).node_count()
                        ==> !(#[trigger] final(self).graph.same_component(x, r.0 as int))
                &&& forall|x: int|
                    0 <= x < old(self).node_count()
                        ==> !(#[trigger] final(self).graph.same_component(r.0 as int, x))
            },
    {
        if let Some(i) = self.find_label(label) {
            proof {
                assert(label_in(self.labels_seq(), label));
            }
            return NodeIndex(i);
        }
        let idx = self.graph.next_node();
        self.labels.push(label);
        proof {
            assert(self.labels@ == old(self).labels@.push(label));
        }
        idx
    }

    /// The position of the element with the given id, if it is live.
    fn find_id(&self, id: ElementId) -> (r: Option<usize>)
        ensures
            match r {
                Some(i) => i < self.elements@.len() && self.elements@[i as int].id == id,
                None => forall|k: int|
                    0 <= k < self.elements@.len() ==> (#[trigger] self.elements@[k]).id != id,
            },
    {
        let count = self.elements.len();
        let mut i: usize = 0;
        while i < count
            invariant
                i <= count,
                count == self.elements@.len(),
                forall|k: int| 0 <= k < i ==> (#[trigger] self.elements@[k]).id != id,
            decreases count - i,
        {
            if self.elements[i].id.0 == id.0 {
                return Some(i);
            }
            i = i + 1;
        }
        None
    }

    /// Whether some element has node `v` as an endpoint.
    fn node_used_exec(&self, v: NodeIndex) -> (r: bool)
        ensures
            r == self.node_used(v.0 as int),
    {
        let count = self.elements.len();
        let mut i: usize = 0;
        while i < count
            invariant
                i <= count,
                count == self.elements@.len(),
                forall|k: int|
                    0 <= k < i ==> (#[trigger] self.elements@[k]).endpoints[0].0 != v.0
                        && self.elements@[k].endpoints[1].0 != v.0,
            decreases count - i,
        {
            let e = self.elements[i];
            if e.endpoints[0].0 == v.0 || e.endpoints[1].0 == v.0 {
                proof {
                    assert(self.elements@[i as int].endpoints[0].0 == v.0
                        || self.elements@[i as int].endpoints[1].0 == v.0);
                }
                return true;
            }
            i = i + 1;
        }
        false
    }

    /// A node is used exactly when its label is the endpoint label of some
    /// element.
    proof fn lemma_node_label_used(self, v: int)
        requires
            self.wf_core(),
            0 <= v < self.labels@.len(),
        ensures
            self.node_used(v) == label_used(self.element_view(), self.labels@[v]),
    {
        if self.node_used(v) {
            let i = choose|i: int|
                0 <= i < self.elements@.len() && ((#[trigger] self.elements@[i]).endpoints[0].0
                    == v || self.elements@[i].endpoints[1].0 == v);
            assert(self.element_view()[i].1 == self.labels@[v]
                || self.element_view()[i].2 == self.labels@[v]);
        }
        if label_used(self.element_view(), self.labels@[v]) {
            let k = choose|k: int|
                0 <= k < self.element_view().len() && ((#[trigger] self.element_view()[k]).1
                    == self.labels@[v] || self.element_view()[k].2 == self.labels@[v]);
            let e0 = self.elements@[k].endpoints[0].0 as int;
            let e1 = self.elements@[k].endpoints[1].0 as int;
            assert(0 <= e0 < self.labels@.len() && 0 <= e1 < self.labels@.len());
            if self.element_view()[k].1 == self.labels@[v] {
                assert(self.labels@[e0] == self.labels@[v]);
                assert(e0 == v);
            } else {
                assert(self.labels@[e1] == self.labels@[v]);
                assert(e1 == v);
            }
        }
    }

    /// Deletes node `v` and its label mapping when no element is incident
    /// to it any more; all later node indices shift down by one, and the
    /// stored element endpoints are renumbered accordingly. Returns whether
    /// the node went away. The view of the elements is untouched either
    /// way: labels follow their nodes.
    fn prune_if_isolated(&mut self, v: NodeIndex) -> (removed: bool)
        requires
            old(self).wf_core(),
            v.0 < old(self).node_count(),
        ensures
            final(self).wf_core(),
            old(self).node_used(v.0 as int) ==> !removed && *final(self) == *old(self),
            !old(self).node_used(v.0 as int) ==> {
                &&& removed
                &&& final(self).labels_seq() == old(self).labels_seq().remove_value(
                    old(self).labels_seq()[v.0 as int],
                )
                &&& final(self).labels_seq() == old(self).labels_seq().remove(v.0 as int)
            },
            final(self).element_view() == old(self).element_view(),
            final(self).conductor_seq() == old(self).conductor_seq(),
            final(self).elements@.len() == old(self).elements@.len(),
            final(self).ids_count == old(self).ids_count,
            forall|k: int|
                0 <= k < final(self).elements@.len()
                    ==> (#[trigger] final(self).elements@[k]).id == old(self).elements@[k].id,
    {
        if self.node_used_exec(v) {
            return false;
        }
        let ghost labels0 = self.labels@;
        let ghost elements0 = self.elements@;
        let ghost view0 = self.element_view();
        proof {
            assert forall|k: int| 0 <= k < self.graph.edge_list().len()
                implies (#[trigger] self.graph.edge_list()[k])[0].0 != v.0
                    && self.graph.edge_list()[k][1].0 != v.0 by {
                assert(self.elements@[k].endpoints[0] == self.graph.edge_list()[k][0]);
                assert(!(self.elements@[k].endpoints[0].0 == v.0
                    || self.elements@[k].endpoints[1].0 == v.0));
            }
        }
        self.graph.remove_node(v);
        self.labels.remove(v.0);
        proof {
            labels0.remove_ensures(v.0 as int);
        }
        let ghost graph1 = self.graph;
        let count = self.elements.len();
        let mut k: usize = 0;
        while k < count
            invariant
                k <= count,
                count == elements0.len(),
                self.elements@.len() == count,
                v.0 < labels0.len(),
                self.graph == graph1,
                self.labels@ == labels0.remove(v.0 as int),
                self.ids_count == old(self).ids_count,
                forall|i: int|
                    0 <= i < count ==> (#[trigger] elements0[i]).endpoints[0].0 != v.0
                        && elements0[i].endpoints[1].0 != v.0,
                forall|i: int| k <= i < count ==> #[trigger] self.elements@[i] == elements0[i],
                self.conductors@ == old(self).conductors@,
                forall|i: int|
                    0 <= i < k ==> (#[trigger] self.elements@[i]).id == elements0[i].id
                        && self.elements@[i].endpoints[0]
                            == CircuitGraph::shift_node(elements0[i].endpoints[0], v.0 as int)
                        && self.elements@[i].endpoints[1]
                            == CircuitGraph::shift_node(elements0[i].endpoints[1], v.0 as int),
            decreases count - k,
        {
            let e0 = self.elements[k].endpoints[0];
            let e1 = self.elements[k].endpoints[1];
            let idv = self.elements[k].id;
            let n0 = if e0.0 > v.0 {
                NodeIndex(e0.0 - 1)
            } else {
                e0
            };
            let n1 = if e1.0 > v.0 {
                NodeIndex(e1.0 - 1)
            } else {
                e1
            };
            self.elements[k] = CircuitElement::new(idv, [n0, n1]);
            proof {
                assert(self.elements@[k as int].endpoints[0] == n0);
                assert(self.elements@[k as int].endpoints[1] == n1);
            }
            k = k + 1;
        }
        proof {
            let r = v.0 as int;
            labels0.remove_ensures(r);
            assert forall|i: int| 0 <= i < count
                implies #[trigger] self.element_view()[i] == view0[i] by {
                let oe0 = elements0[i].endpoints[0].0 as int;
                let oe1 = elements0[i].endpoints[1].0 as int;
                assert(0 <= oe0 < labels0.len() && 0 <= oe1 < labels0.len());
                assert(self.labels@[self.elements@[i].endpoints[0].0 as int] == labels0[oe0]);
                assert(self.labels@[self.elements@[i].endpoints[1].0 as int] == labels0[oe1]);
            }
            assert(self.element_view() =~= view0);
            assert(self.conductor_seq() =~= old(self).conductor_seq());
            assert(self.labels_seq() == labels0.remove(r));
            assert(self.labels_seq() == labels0.remove_value(labels0[r])) by {
                assert(labels0.index_of_first(labels0[r]) == Some(r)) by {
                    let found = labels0.index_of_first(labels0[r]);
                    labels0.index_of_first_ensures(labels0[r]);
                    if found is Some {
                        let f = found->Some_0;
                        assert(labels0[f] == labels0[r]);
                        assert(f == r);
                    } else {
                        assert(labels0.contains(labels0[r])) by {
                            assert(labels0[r] == labels0[r]);
                        }
                    }
                }
            }
            assert forall|i: int, j: int| 0 <= i < j < self.labels@.len()
                implies self.labels@[i] != self.labels@[j] by {
                assert(self.labels@[i] == labels0[if i < r {
                    i
                } else {
                    i + 1
                }]);
                assert(self.labels@[j] == labels0[if j < r {
                    j
                } else {
                    j + 1
                }]);
            }
            assert forall|i: int| 0 <= i < count
                implies (#[trigger] self.elements@[i]).endpoints[0]
                    == self.graph.edge_list()[i][0]
                    && self.elements@[i].endpoints[1] == self.graph.edge_list()[i][1] by {
                assert(self.graph.edge_list()[i][0]
                    == CircuitGraph::shift_node(elements0[i].endpoints[0], r));
            }
            assert(self.wf_core());
        }
        true
    }

    /// Removes the element, shrinks the loop matrix, and prunes each of
    /// its endpoint nodes that no remaining element touches, together with
    /// its label mapping, first the node of the first endpoint, then the
    /// node of the second.
    pub fn remove(&mut self, id: ElementId) -> (r: Result<(), CircuitError>)
        requires
            old(self).wf(),
        ensures
            final(self).wf(),
            !id_in(old(self).element_view(), id) ==> r == Result::<(), CircuitError>::Err(
                CircuitError::UnknownElement,
            ) && *final(self) == *old(self),
            id_in(old(self).element_view(), id) ==> {
                let i = id_index(old(self).element_view(), id);
                let la = old(self).element_view()[i].1;
                let lb = old(self).element_view()[i].2;
                let remaining = old(self).element_view().remove(i);
                &&& r == Result::<(), CircuitError>::Ok(())
                &&& final(self).element_view() == remaining
                &&& final(self).conductor_seq() == old(self).conductor_seq().remove(i)
                &&& final(self).labels_seq() == prune_labels(
                    old(self).labels_seq(),
                    la,
                    lb,
                    remaining,
                )
                &&& final(self).next_id() == old(self).next_id()
                &&& remaining.len() == 0 ==> final(self).loop_row_count() == 0
            },
    {
        let i = match self.find_id(id) {
            Some(i) => i,
            None => {
                proof {
                    assert(!id_in(self.element_view(), id)) by {
                        if id_in(self.element_view(), id) {
                            let k = choose|k: int|
                                0 <= k < self.element_view().len() && (#[trigger] self.element_view()[k]).0
                                    == id;
                            assert(self.elements@[k].id == id);
                        }
                    }
                }
                return Err(CircuitError::UnknownElement);
            },
        };
        proof {
            let ghost view0 = self.element_view();
            let ghost gi = id_index(view0, id);
            assert(view0[i as int].0 == id);
            assert(0 <= gi < view0.len() && view0[gi].0 == id);
            if gi != i {
                assert(self.elements@[gi].id == self.elements@[i as int].id);
            }
            assert(gi == i);
        }
        let _ = self.detach_element(i);
        proof {
            if self.element_view().len() == 0 {
                assert(self.graph.edge_list().len() == 0);
                assert(self.graph.chord_positions(0).len() == 0);
                assert(self.loop_row_count() == 0);
            }
        }
        Ok(())
    }

    /// Drops the element at position `i` together with its loop-matrix
    /// column, prunes each of its endpoint nodes that no remaining element
    /// touches (first the node of the first endpoint, then the second),
    /// and hands back the element's payload.
    fn detach_element(&mut self, i: usize) -> (c: C)
        requires
            old(self).wf(),
            i < old(self).element_view().len(),
        ensures
            final(self).wf(),
            final(self).element_view() == old(self).element_view().remove(i as int),
            final(self).conductor_seq() == old(self).conductor_seq().remove(i as int),
            final(self).labels_seq() == prune_labels(
                old(self).labels_seq(),
                old(self).element_view()[i as int].1,
                old(self).element_view()[i as int].2,
                old(self).element_view().remove(i as int),
            ),
            c == old(self).conductor_seq()[i as int],
            final(self).next_id() == old(self).next_id(),
    {
        let ghost view0 = self.element_view();
        let ghost cond0 = self.conductor_seq();
        let ghost labels0 = self.labels_seq();
        let a = self.elements[i].endpoints[0];
        let b = self.elements[i].endpoints[1];
        let ghost la = view0[i as int].1;
        let ghost lb = view0[i as int].2;
        let _removed = self.elements.remove(i);
        let payload = self.conductors.remove(i);
        self.graph.remove_edge(i);
        proof {
            old(self).elements@.remove_ensures(i as int);
            view0.remove_ensures(i as int);
            cond0.remove_ensures(i as int);
            assert forall|k: int| 0 <= k < self.element_view().len()
                implies #[trigger] self.element_view()[k] == view0.remove(i as int)[k] by {
                if k < i {
                    assert(self.elements@[k] == old(self).elements@[k]);
                } else {
                    assert(self.elements@[k] == old(self).elements@[k + 1]);
                }
            }
            assert(self.element_view() =~= view0.remove(i as int));
            assert(self.conductor_seq() == cond0.remove(i as int));
            assert(self.wf_core());
        }
        let ghost remaining = self.element_view();
        proof {
            self.lemma_node_label_used(a.0 as int);
            assert(label_used(remaining, la) == self.node_used(a.0 as int));
        }
        let removed_a = self.prune_if_isolated(a);
        let b_now = if removed_a && b.0 > a.0 {
            NodeIndex(b.0 - 1)
        } else {
            b
        };
        proof {
            assert(b_now.0 < self.node_count());
            assert(self.labels_seq()[b_now.0 as int] == lb);
            self.lemma_node_label_used(b_now.0 as int);
            assert(label_used(remaining, lb) == self.node_used(b_now.0 as int));
        }
        let _removed_b = self.prune_if_isolated(b_now);
        proof {
            assert(self.labels_seq() == prune_labels(labels0, la, lb, remaining));
            let s1 = if label_used(remaining, la) {
                labels0
            } else {
                labels0.remove_value(la)
            };
            assert(labels_distinct(labels0));
            lemma_remove_value_facts(labels0, la);
            assert(labels_distinct(s1));
            lemma_remove_value_facts(s1, lb);
            assert forall|v: int| 0 <= v < self.labels@.len()
                implies #[trigger] seq_node_used(self.elements@, v) by {
                self.lemma_node_label_used(v);
                let l = self.labels@[v];
                assert(label_in(self.labels_seq(), l)) by {
                    assert(self.labels_seq()[v] == l);
                }
                if l == la {
                    if !label_used(remaining, la) {
                        assert(!label_in(s1, la));
                        assert(label_in(s1, la));
                    }
                } else if l == lb {
                    if !label_used(remaining, lb) {
                        assert(!label_in(s1.remove_value(lb), lb));
                        assert(label_in(s1.remove_value(lb), lb));
                    }
                } else {
                    assert(label_in(labels0, l));
                    let v0 = choose|k: int| 0 <= k < labels0.len() && labels0[k] == l;
                    assert(old(self).node_used(v0));
                    old(self).lemma_node_label_used(v0);
                    assert(label_used(view0, l));
                    let k = choose|k: int|
                        0 <= k < view0.len() && ((#[trigger] view0[k]).1 == l || view0[k].2
                            == l);
                    assert(k != i);
                    if k < i {
                        assert(remaining[k] == view0[k]);
                        assert(label_used(remaining, l)) by {
                            assert(remaining[k].1 == l || remaining[k].2 == l);
                        }
                    } else {
                        assert(remaining[k - 1] == view0[k]);
                        assert(label_used(remaining, l)) by {
                            assert(remaining[k - 1].1 == l || remaining[k - 1].2 == l);
                        }
                    }
                }
                assert(label_used(self.element_view(), l));
            }
        }
        payload
    }

    /// Adds an element between the two labelled endpoints, creating nodes
    /// lazily, and returns its fresh id. An element whose endpoints carry
    /// one and the same label is rejected: self-loops are malformed.
    pub fn add(&mut self, endpoints: [ElementPos; 2], conductor: C) -> (r: Result<
        ElementId,
        CircuitError,
    >)
        requires
            old(self).wf(),
            old(self).node_count() + 2 < usize::MAX,
            old(self).next_id() < usize::MAX,
        ensures
            final(self).wf(),
            endpoints[0] == endpoints[1] ==> r == Result::<ElementId, CircuitError>::Err(
                CircuitError::SelfLoop,
            ) && *final(self) == *old(self),
            endpoints[0] != endpoints[1] ==> {
                &&& r == Result::<ElementId, CircuitError>::Ok(
                    ElementId(old(self).next_id() as usize),
                )
                &&& final(self).next_id() == old(self).next_id() + 1
                &&& final(self).labels_seq() == add_labels(
                    old(self).labels_seq(),
                    endpoints[0],
                    endpoints[1],
                )
                &&& final(self).element_view() == old(self).element_view().push(
                    (ElementId(old(self).next_id() as usize), endpoints[0], endpoints[1]),
                )
                &&& final(self).conductor_seq() == old(self).conductor_seq().push(conductor)
                &&& final(self).loop_row_count() == old(self).loop_row_count() + (if old(
                    self,
                ).labels_linked(endpoints[0], endpoints[1]) {
                    1int
                } else {
                    0int
                })
            },
    {
        if endpoints[0] == endpoints[1] {
            return Err(CircuitError::SelfLoop);
        }
        let ghost view0 = self.element_view();
        let ghost cond0 = self.conductor_seq();
        let a = self.resolve_label(endpoints[0]);
        let ghost c1 = *self;
        let ghost labels1 = self.labels_seq();
        let b = self.resolve_label(endpoints[1]);
        let ghost c2 = *self;
        proof {
            assert(self.labels_seq()[a.0 as int] == endpoints[0]) by {
                if !label_in(labels1, endpoints[1]) {
                    assert(self.labels_seq()[a.0 as int] == labels1[a.0 as int]);
                }
            }
            assert(a.0 != b.0);
        }
        proof {
            assert(c2.graph.same_component(a.0 as int, b.0 as int) == old(self).labels_linked(
                endpoints[0],
                endpoints[1],
            )) by {
                let la = endpoints[0];
                let lb = endpoints[1];
                if label_in(old(self).labels_seq(), la) {
                    assert(c1 == *old(self));
                    assert(old(self).labels_seq()[a.0 as int] == la);
                    assert(a.0 as int == old(self).label_node(la)) by {
                        let v = old(self).label_node(la);
                        assert(old(self).labels_seq()[v] == la);
                    }
                    if label_in(labels1, lb) {
                        assert(c2 == c1);
                        assert(label_in(old(self).labels_seq(), lb));
                        assert(b.0 as int == old(self).label_node(lb)) by {
                            let v = old(self).label_node(lb);
                            assert(old(self).labels_seq()[v] == lb);
                        }
                    } else {
                        assert(!label_in(old(self).labels_seq(), lb)) by {
                            if label_in(old(self).labels_seq(), lb) {
                                let k = choose|k: int|
                                    0 <= k < old(self).labels_seq().len() && old(
                                        self,
                                    ).labels_seq()[k] == lb;
                                assert(labels1[k] == lb);
                            }
                        }
                        assert(b.0 == labels1.len());
                        assert(!c2.graph.same_component(a.0 as int, b.0 as int));
                    }
                } else {
                    assert(a.0 == old(self).labels_seq().len());
                    if label_in(labels1, lb) {
                        assert(c2 == c1);
                        assert(!c1.graph.same_component(a.0 as int, b.0 as int)) by {
                            assert(b.0 < labels1.len()) by {
                                if b.0 == labels1.len() {
                                    assert(labels1[b.0 as int] == lb);
                                }
                            }
                            assert(labels1.len() == old(self).node_count() + 1);
                            if b.0 < old(self).node_count() {
                                assert(!c1.graph.same_component(b.0 as int, a.0 as int));
                                assert(!c1.graph.same_component(a.0 as int, b.0 as int));
                            } else {
                                assert(b.0 == a.0);
                                assert(labels1[b.0 as int] == la);
                            }
                        }
                    } else {
                        assert(b.0 == labels1.len());
                        assert(a.0 < c1.node_count());
                        assert(!c2.graph.same_component(a.0 as int, b.0 as int));
                    }
                }
            }
        }
        let id = ElementId(self.ids_count);
        self.ids_count = self.ids_count + 1;
        let ghost gpre = self.graph;
        self.graph.add_edge([a, b]);
        proof {
            assert(gpre == c2.graph);
            assert(self.graph.loop_matrix().len() == old(self).loop_row_count() + (if old(
                self,
            ).labels_linked(endpoints[0], endpoints[1]) {
                1int
            } else {
                0int
            }));
        }
        self.elements.push(CircuitElement::new(id, [a, b]));
        self.conductors.push(conductor);
        proof {
            assert(self.element_view().len() == view0.len() + 1);
            assert forall|i: int| 0 <= i < view0.len()
                implies #[trigger] self.element_view()[i] == view0[i] by {
                assert(self.elements@[i] == old(self).elements@[i]);
                assert(old(self).elements@[i].endpoints[0].0 < old(self).labels@.len());
                assert(self.labels@[old(self).elements@[i].endpoints[0].0 as int]
                    == old(self).labels@[old(self).elements@[i].endpoints[0].0 as int]);
                assert(self.labels@[old(self).elements@[i].endpoints[1].0 as int]
                    == old(self).labels@[old(self).elements@[i].endpoints[1].0 as int]);
            }
            assert(self.element_view()[view0.len() as int]
                == (id, endpoints[0], endpoints[1]));
            assert(self.element_view() =~= view0.push((id, endpoints[0], endpoints[1])));
            assert(self.conductor_seq() =~= cond0.push(conductor));
            assert forall|v: int| 0 <= v < self.labels@.len()
                implies #[trigger] seq_node_used(self.elements@, v) by {
                if v < old(self).labels@.len() {
                    assert(old(self).node_used(v));
                    let i = choose|i: int|
                        0 <= i < old(self).elements@.len() && ((#[trigger] old(
                            self,
                        ).elements@[i]).endpoints[0].0 == v || old(
                            self,
                        ).elements@[i].endpoints[1].0 == v);
                    assert(self.elements@[i] == old(self).elements@[i]);
                } else {
                    let i = self.elements@.len() - 1;
                    assert(self.elements@[i].endpoints[0].0 == v
                        || self.elements@[i].endpoints[1].0 == v);
                }
            }
            assert(self.wf());
        }
        Ok(id)
    }

    /// Moves an element to two newly labelled endpoints: the old edge
    /// leaves the topology (forcing a full forest rebuild), each old
    /// endpoint that became isolated is deleted with its label mapping,
    /// and the edge is re-added at the new endpoints along the incremental
    /// path. The element keeps its id and its payload, and moves to the
    /// last loop-matrix column.
    pub fn change(&mut self, id: ElementId, new_endpoints: [ElementPos; 2]) -> (r: Result<
        (),
        CircuitError,
    >)
        requires
            old(self).wf(),
            old(self).node_count() + 2 < usize::MAX,
        ensures
            final(self).wf(),
            !id_in(old(self).element_view(), id) ==> r == Result::<(), CircuitError>::Err(
                CircuitError::UnknownElement,
            ) && *final(self) == *old(self),
            id_in(old(self).element_view(), id) && new_endpoints[0] == new_endpoints[1]
                ==> r == Result::<(), CircuitError>::Err(CircuitError::SelfLoop) && *final(self)
                == *old(self),
            id_in(old(self).element_view(), id) && new_endpoints[0] != new_endpoints[1] ==> {
                let i = id_index(old(self).element_view(), id);
                let remaining = old(self).element_view().remove(i);
                let pruned = prune_labels(
                    old(self).labels_seq(),
                    old(self).element_view()[i].1,
                    old(self).element_view()[i].2,
                    remaining,
                );
                &&& r == Result::<(), CircuitError>::Ok(())
                &&& final(self).labels_seq() == add_labels(
                    pruned,
                    new_endpoints[0],
                    new_endpoints[1],
                )
                &&& final(self).element_view() == remaining.push(
                    (id, new_endpoints[0], new_endpoints[1]),
                )
                &&& final(self).conductor_seq() == old(self).conductor_seq().remove(i).push(
                    old(self).conductor_seq()[i],
                )
                &&& final(self).next_id() == old(self).next_id()
            },
    {
        let i = match self.find_id(id) {
            Some(i) => i,
            None => {
                proof {
                    assert(!id_in(self.element_view(), id)) by {
                        if id_in(self.element_view(), id) {
                            let k = choose|k: int|
                                0 <= k < self.element_view().len() && (#[trigger] self.element_view()[k]).0
                                    == id;
                            assert(self.elements@[k].id == id);
                        }
                    }
                }
                return Err(CircuitError::UnknownElement);
            },
        };
        if new_endpoints[0] == new_endpoints[1] {
            proof {
                assert(id_in(self.element_view(), id)) by {
                    assert(self.element_view()[i as int].0 == id);
                }
            }
            return Err(CircuitError::SelfLoop);
        }
        proof {
            let ghost view0 = self.element_view();
            let ghost gi = id_index(view0, id);
            assert(view0[i as int].0 == id);
            assert(0 <= gi < view0.len() && view0[gi].0 == id);
            if gi != i {
                assert(self.elements@[gi].id == self.elements@[i as int].id);
            }
            assert(gi == i);
        }
        let eid = self.elements[i].id;
        let ghost view_before = self.element_view();
        let conductor = self.detach_element(i);
        proof {
            lemma_prune_labels_len(
                old(self).labels_seq(),
                view_before[i as int].1,
                view_before[i as int].2,
                view_before.remove(i as int),
            );
        }
        let ghost mid = *self;
        let ghost mid_view = mid.element_view();
        let ghost mid_cond = mid.conductor_seq();
        let ghost mid_labels = mid.labels_seq();
        let a = self.resolve_label(new_endpoints[0]);
        let ghost labels1 = self.labels_seq();
        let b = self.resolve_label(new_endpoints[1]);
        proof {
            assert(self.labels_seq()[a.0 as int] == new_endpoints[0]) by {
                if !label_in(labels1, new_endpoints[1]) {
                    assert(self.labels_seq()[a.0 as int] == labels1[a.0 as int]);
                }
            }
            assert(a.0 != b.0);
        }
        self.graph.add_edge([a, b]);
        let ghost pre = *self;
        self.elements.push(CircuitElement::new(eid, [a, b]));
        self.conductors.push(conductor);
        proof {
            assert(self.element_view().len() == mid_view.len() + 1);
            assert forall|k: int| 0 <= k < mid_view.len()
                implies #[trigger] self.element_view()[k] == mid_view[k] by {
                assert(self.elements@[k] == pre.elements@[k]);
                assert(pre.elements@[k].endpoints[0].0 < mid_labels.len());
                assert(self.labels@[pre.elements@[k].endpoints[0].0 as int]
                    == mid_labels[pre.elements@[k].endpoints[0].0 as int]);
                assert(self.labels@[pre.elements@[k].endpoints[1].0 as int]
                    == mid_labels[pre.elements@[k].endpoints[1].0 as int]);
            }
            assert(self.element_view()[mid_view.len() as int]
                == (eid, new_endpoints[0], new_endpoints[1]));
            assert(self.element_view() =~= mid_view.push(
                (eid, new_endpoints[0], new_endpoints[1]),
            ));
            assert(self.conductor_seq() =~= mid_cond.push(conductor));
            assert forall|k1: int, k2: int| 0 <= k1 < k2 < self.elements@.len()
                implies self.elements@[k1].id != self.elements@[k2].id by {
                if k2 == self.elements@.len() - 1 {
                    assert(self.elements@[k1].id == pre.elements@[k1].id);
                    assert(mid_view[k1].0 == pre.elements@[k1].id);
                    let k0: int = if k1 < i { k1 } else { k1 + 1 };
                    assert(mid_view[k1].0 == old(self).element_view()[k0].0);
                    assert(old(self).element_view()[k0].0 == old(self).elements@[k0].id);
                    assert(old(self).element_view()[i as int].0 == eid);
                    if k0 != i {
                        assert(old(self).elements@[k0].id != old(self).elements@[i as int].id);
                    }
                } else {
                    assert(self.elements@[k1] == pre.elements@[k1]);
                    assert(self.elements@[k2] == pre.elements@[k2]);
                }
            }
            assert forall|v: int| 0 <= v < self.labels@.len()
                implies #[trigger] seq_node_used(self.elements@, v) by {
                if v < mid_labels.len() {
                    assert(pre.elements@ == mid.elements@);
                    assert(mid.node_used(v)) by {
                        assert(mid.wf());
                        mid.lemma_node_label_used(v);
                        assert(label_in(mid.labels_seq(), mid_labels[v])) by {
                            assert(mid.labels_seq()[v] == mid_labels[v]);
                        }
                    }
                    let j = choose|j: int|
                        0 <= j < mid.elements@.len() && ((#[trigger] mid.elements@[j]).endpoints[0].0
                            == v || mid.elements@[j].endpoints[1].0 == v);
                    assert(self.elements@[j] == mid.elements@[j]);
                } else {
                    let j = self.elements@.len() - 1;
                    assert(self.elements@[j].endpoints[0].0 == v
                        || self.elements@[j].endpoints[1].0 == v);
                }
            }
            assert(self.wf());
        }
        Ok(())
    }

    /// How many nodes the engine currently has: one per live label.
    pub fn node_len(&self) -> (r: usize)
        ensures
            r == self.node_count(),
    {
        self.labels.len()
    }

    /// Whether the id names a live element.
    pub fn contains(&self, id: ElementId) -> (r: bool)
        ensures
            r == id_in(self.element_view(), id),
    {
        match self.find_id(id) {
            Some(i) => {
                proof {
                    assert(self.element_view()[i as int].0 == id);
                }
                true
            },
            None => {
                proof {
                    if id_in(self.element_view(), id) {
                        let k = choose|k: int|
                            0 <= k < self.element_view().len() && (#[trigger] self.element_view()[k]).0
                                == id;
                        assert(self.elements@[k].id == id);
                    }
                }
                false
            },
        }
    }

    /// Reverse-maps the element's endpoint nodes back to their labels.
    pub fn endpoints(&self, id: ElementId) -> (r: Result<[ElementPos; 2], CircuitError>)
        requires
            self.wf(),
        ensures
            !id_in(self.element_view(), id) ==> r == Result::<
                [ElementPos; 2],
                CircuitError,
            >::Err(CircuitError::UnknownElement),
            id_in(self.element_view(), id) ==> (r matches Ok(p) && p[0] == self.element_view()[
                id_index(self.element_view(), id)
            ].1 && p[1] == self.element_view()[id_index(self.element_view(), id)].2),
    {
        let i = match self.find_id(id) {
            Some(i) => i,
            None => {
                proof {
                    if id_in(self.element_view(), id) {
                        let k = choose|k: int|
                            0 <= k < self.element_view().len() && (#[trigger] self.element_view()[k]).0
                                == id;
                        assert(self.elements@[k].id == id);
                    }
                }
                return Err(CircuitError::UnknownElement);
            },
        };
        proof {
            assert(self.element_view()[i as int].0 == id);
            let gi = id_index(self.element_view(), id);
            assert(0 <= gi < self.element_view().len() && self.element_view()[gi].0 == id);
            if gi != i {
                assert(self.elements@[gi].id == self.elements@[i as int].id);
            }
            assert(gi == i);
        }
        let a = self.elements[i].endpoints[0];
        let b = self.elements[i].endpoints[1];
        let la = self.labels[a.0];
        let lb = self.labels[b.0];
        Ok([la, lb])
    }

    /// Exclusive access to the payload of the element with the given id,
    /// which must be live: callers test `contains` first. Everything but
    /// that one payload is left untouched.
    pub fn get_mut(&mut self, id: ElementId) -> (r: &mut C)
        requires
            old(self).wf(),
            id_in(old(self).element_view(), id),
        ensures
            final(self).wf(),
            *r == old(self).conductor_seq()[id_index(old(self).element_view(), id)],
            final(self).conductor_seq() == old(self).conductor_seq().update(
                id_index(old(self).element_view(), id),
                *final(r),
            ),
            final(self).element_view() == old(self).element_view(),
            final(self).labels_seq() == old(self).labels_seq(),
            final(self).next_id() == old(self).next_id(),
            final(self).loop_row_count() == old(self).loop_row_count(),
    {
        let found = self.find_id(id);
        proof {
            if found is None {
                let k = choose|k: int|
                    0 <= k < self.element_view().len() && (#[trigger] self.element_view()[k]).0
                        == id;
                assert(self.elements@[k].id == id);
            }
        }
        let i = match found {
            Some(i) => i,
            None => {
                proof {
                    assert(false);
                }
                0
            },
        };
        proof {
            assert(self.element_view()[i as int].0 == id);
            let gi = id_index(self.element_view(), id);
            assert(0 <= gi < self.element_view().len() && self.element_view()[gi].0 == id);
            if gi != i {
                assert(self.elements@[gi].id == self.elements@[i as int].id);
            }
            assert(gi == i);
        }
        &mut self.conductors[i]
    }

    /// Every live element's id, in loop-matrix column order.
    pub fn ids(&self) -> (r: Vec<ElementId>)
        ensures
            r@.len() == self.element_view().len(),
            forall|k: int|
                0 <= k < r@.len() ==> #[trigger] r@[k] == self.element_view()[k].0,
    {
        let count = self.elements.len();
        let mut r: Vec<ElementId> = Vec::new();
        let mut i: usize = 0;
        while i < count
            invariant
                i <= count,
                count == self.elements@.len(),
                r@.len() == i,
                forall|k: int| 0 <= k < i ==> #[trigger] r@[k] == self.elements@[k].id,
            decreases count - i,
        {
            let id = self.elements[i].id;
            r.push(id);
            i = i + 1;
        }
        r
    }

    /// Each live element's id and a view of its payload, in loop-matrix
    /// column order.
    pub fn iter(&self) -> (r: Vec<(ElementId, &C)>)
        requires
            self.wf(),
        ensures
            r@.len() == self.element_view().len(),
            forall|k: int|
                0 <= k < r@.len() ==> (#[trigger] r@[k]).0 == self.element_view()[k].0
                    && *r@[k].1 == self.conductor_seq()[k],
    {
        let count = self.elements.len();
        let mut r: Vec<(ElementId, &C)> = Vec::new();
        let mut i: usize = 0;
        while i < count
            invariant
                i <= count,
                count == self.elements@.len(),
                count == self.conductors@.len(),
                r@.len() == i,
                forall|k: int|
                    0 <= k < i ==> (#[trigger] r@[k]).0 == self.elements@[k].id
                        && *r@[k].1 == self.conductors@[k],
            decreases count - i,
        {
            let idv = self.elements[i].id;
            r.push((idv, &self.conductors[i]));
            i = i + 1;
        }
        r
    }

    /// The loop matrix and its transpose, one row per independent cycle,
    /// one column per element in `ids` order. With no independent cycle
    /// the matrix has no rows and every branch current is zero.
    pub fn loops(&self) -> (r: (&Vec<Vec<i8>>, &Vec<Vec<i8>>))
        requires
            self.wf(),
        ensures
            r.0@.map_values(|row: Vec<i8>| row@) == self.loop_matrix(),
            r.0@.len() == self.loop_row_count(),
            r.1@.len() == self.element_view().len(),
            forall|i: int|
                0 <= i < r.0@.len() ==> (#[trigger] r.0@[i])@.len()
                    == self.element_view().len(),
            forall|i: int|
                0 <= i < r.1@.len() ==> (#[trigger] r.1@[i])@.len() == self.loop_row_count(),
            forall|i: int, j: int|
                0 <= i < r.0@.len() && 0 <= j < r.1@.len()
                    ==> #[trigger] r.0@[i]@[j] == r.1@[j]@[i],
            forall|i: int, j: int|
                0 <= i < r.0@.len() && 0 <= j < r.1@.len() ==> -1 <= #[trigger] r.0@[i]@[j]
                    <= 1,
    {
        let pair = self.graph.loops();
        proof {
            assert(self.graph.loops_wf());
            assert forall|i: int| 0 <= i < pair.0@.len()
                implies (#[trigger] pair.0@[i])@.len() == self.element_view().len() by {
                assert(self.graph.loop_matrix()[i] == pair.0@[i]@);
            }
            assert forall|i: int| 0 <= i < pair.1@.len()
                implies (#[trigger] pair.1@[i])@.len() == self.loop_row_count() by {
                assert(self.graph.loop_matrix_transposed()[i] == pair.1@[i]@);
            }
            assert forall|i: int, j: int|
                0 <= i < pair.0@.len() && 0 <= j < pair.1@.len()
                implies #[trigger] pair.0@[i]@[j] == pair.1@[j]@[i]
                    && -1 <= pair.0@[i]@[j] <= 1 by {
                assert(self.graph.loop_matrix()[i] == pair.0@[i]@);
                assert(self.graph.loop_matrix_transposed()[j] == pair.1@[j]@);
            }
        }
        pair
    }

    /// No orphan nodes survive an edit, and no element dangles: a label
    /// is mapped exactly while some live element uses it as an endpoint
    /// label.
    pub proof fn lemma_labels_exactly_used(self)
        requires
            self.wf(),
        ensures
            forall|l: ElementPos| #[trigger] label_in(self.labels_seq(), l) == label_used(
                self.element_view(),
                l,
            ),
    {
        assert forall|l: ElementPos|
            #[trigger] label_in(self.labels_seq(), l) == label_used(self.element_view(), l) by {
            if label_in(self.labels_seq(), l) {
                let v = choose|v: int| 0 <= v < self.labels@.len() && self.labels@[v] == l;
                assert(seq_node_used(self.elements@, v));
                self.lemma_node_label_used(v);
            }
            if label_used(self.element_view(), l) {
                let k = choose|k: int|
                    0 <= k < self.element_view().len() && ((#[trigger] self.element_view()[k]).1
                        == l || self.element_view()[k].2 == l);
                let e0 = self.elements@[k].endpoints[0].0 as int;
                let e1 = self.elements@[k].endpoints[1].0 as int;
                if self.element_view()[k].1 == l {
                    assert(self.labels_seq()[e0] == l);
                } else {
                    assert(self.labels_seq()[e1] == l);
                }
            }
        }
    }
}

impl<C> Default for Circuit<C> {
    /// An empty engine.
    fn default() -> (r: Self)
        ensures
            r.wf(),
            r.element_view().len() == 0,
            r.labels_seq().len() == 0,
            r.next_id() == 0,
            r.loop_row_count() == 0,
    {
        Circuit::new()
    }
}


/// Appending a label keeps every label that was already present.
proof fn lemma_push_keeps_membership(s: Seq<ElementPos>, x: ElementPos, y: ElementPos)
    requires
        label_in(s, y),
    ensures
        label_in(s.push(x), y),
{
    let k = choose|k: int| 0 <= k < s.len() && s[k] == y;
    assert(s.push(x)[k] == y);
}

/// Dropping a label that was just appended to a list free of it restores
/// the list.
proof fn lemma_push_then_remove(s: Seq<ElementPos>, x: ElementPos)
    requires
        !label_in(s, x),
    ensures
        s.push(x).remove_value(x) == s,
{
    let t = s.push(x);
    t.index_of_first_ensures(x);
    assert(t.contains(x)) by {
        assert(t[s.len() as int] == x);
    }
    let idx = t.index_of_first(x)->Some_0;
    assert(idx == s.len()) by {
        if idx < s.len() {
            assert(s[idx] == x);
        }
    }
    t.remove_ensures(idx);
    assert(t.remove(idx) =~= s);
}

/// Dropping the earlier of two appended labels leaves only the later one.
proof fn lemma_push_push_then_remove(s: Seq<ElementPos>, x: ElementPos, y: ElementPos)
    requires
        !label_in(s, x),
        y != x,
    ensures
        s.push(x).push(y).remove_value(x) == s.push(y),
{
    let t = s.push(x).push(y);
    t.index_of_first_ensures(x);
    assert(t.contains(x)) by {
        assert(t[s.len() as int] == x);
    }
    let idx = t.index_of_first(x)->Some_0;
    assert(idx == s.len()) by {
        if idx < s.len() {
            assert(s[idx] == x);
        }
        assert(t[s.len() as int + 1] == y);
    }
    t.remove_ensures(idx);
    assert(t.remove(idx) =~= s.push(y));
}

/// Node deduplication: resolving an element's endpoint labels never maps
/// an already-present label to a new node. Two elements that share both
/// labels with the map as it stands add no node at all; sharing one adds
/// at most one.
pub proof fn lemma_add_labels_dedup(s: Seq<ElementPos>, la: ElementPos, lb: ElementPos)
    ensures
        s.len() <= add_labels(s, la, lb).len() <= s.len() + 2,
        label_in(s, la) && label_in(s, lb) ==> add_labels(s, la, lb) == s,
        (label_in(s, la) || label_in(s, lb)) ==> add_labels(s, la, lb).len() <= s.len() + 1,
{
    if label_in(s, lb) && !label_in(s, la) {
        lemma_push_keeps_membership(s, la, lb);
    }
}

/// Round trip of one element: pushing it onto the view and dropping it
/// again restores the view, and resolving its labels and then pruning
/// them restores the label map. Only the id counter moves on: ids are
/// never reused within a session.
pub proof fn lemma_add_remove_round_trip(
    labels: Seq<ElementPos>,
    view: Seq<(ElementId, ElementPos, ElementPos)>,
    la: ElementPos,
    lb: ElementPos,
    id: ElementId,
)
    requires
        la != lb,
        labels_distinct(labels),
        forall|l: ElementPos| #[trigger] label_in(labels, l) == label_used(view, l),
    ensures
        view.push((id, la, lb)).remove(view.len() as int) == view,
        prune_labels(add_labels(labels, la, lb), la, lb, view) == labels,
{
    let view1 = view.push((id, la, lb));
    view1.remove_ensures(view.len() as int);
    assert(view1.remove(view.len() as int) =~= view);
    let s1 = if label_in(labels, la) {
        labels
    } else {
        labels.push(la)
    };
    let s2 = if label_in(s1, lb) {
        s1
    } else {
        s1.push(lb)
    };
    assert(add_labels(labels, la, lb) == s2);
    if label_in(labels, la) {
        assert(label_used(view, la));
        if label_in(labels, lb) {
            assert(label_used(view, lb));
        } else {
            assert(!label_used(view, lb));
            lemma_push_then_remove(labels, lb);
        }
    } else {
        assert(!label_used(view, la));
        if label_in(s1, lb) {
            assert(label_in(labels, lb)) by {
                let k = choose|k: int| 0 <= k < s1.len() && s1[k] == lb;
                assert(k < labels.len());
            }
            assert(label_used(view, lb));
            lemma_push_then_remove(labels, la);
        } else {
            assert(!label_in(labels, lb)) by {
                if label_in(labels, lb) {
                    lemma_push_keeps_membership(labels, la, lb);
                }
            }
            assert(!label_used(view, lb));
            lemma_push_push_then_remove(labels, la, lb);
            assert(s2.remove_value(la) == labels.push(lb));
            lemma_push_then_remove(labels, lb);
        }
    }
}

/// Moving an element's endpoints changes the node count by at most one
/// per endpoint touched: an endpoint left with no element loses exactly
/// its one node, and a brand-new label gains exactly one.
pub proof fn lemma_change_node_delta(
    labels: Seq<ElementPos>,
    la: ElementPos,
    lb: ElementPos,
    remaining: Seq<(ElementId, ElementPos, ElementPos)>,
    na: ElementPos,
    nb: ElementPos,
)
    ensures
        labels.len() - 2 <= prune_labels(labels, la, lb, remaining).len() <= labels.len(),
        prune_labels(labels, la, lb, remaining).len() <= add_labels(
            prune_labels(labels, la, lb, remaining),
            na,
            nb,
        ).len() <= prune_labels(labels, la, lb, remaining).len() + 2,
        labels.len() - 2 <= add_labels(prune_labels(labels, la, lb, remaining), na, nb).len()
            <= labels.len() + 2,
        !label_in(prune_labels(labels, la, lb, remaining), na) && label_in(
            prune_labels(labels, la, lb, remaining).push(na),
            nb,
        ) ==> add_labels(prune_labels(labels, la, lb, remaining), na, nb).len()
            == prune_labels(labels, la, lb, remaining).len() + 1,
{
    lemma_prune_labels_len(labels, la, lb, remaining);
    lemma_add_labels_dedup(prune_labels(labels, la, lb, remaining), na, nb);
}

} // verus!
