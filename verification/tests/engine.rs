//! End-to-end tests of the engine: label resolution, node pruning, loop
//! counts, and the mesh-analysis arithmetic on the derived loop matrix.

use circuit::{Circuit, CircuitError, ElementPos, ElementType, Wire};

fn pos(x: isize, y: isize) -> ElementPos {
    ElementPos::new(x, y)
}

/// Solves the mesh system for the given loop matrix, resistances and
/// electromotive forces by Gaussian elimination, and returns the branch
/// currents; an acyclic topology yields all zeros.
fn branch_currents(rows: &[Vec<i8>], resistance: &[f32], emf: &[f32]) -> Vec<f32> {
    let l = rows.len();
    let e = resistance.len();
    if l == 0 {
        return vec![0.0; e];
    }
    // lhs = B R B^t, rhs = B V
    let mut lhs = vec![vec![0.0f32; l]; l];
    let mut rhs = vec![0.0f32; l];
    for i in 0..l {
        for j in 0..l {
            for k in 0..e {
                lhs[i][j] += rows[i][k] as f32 * resistance[k] * rows[j][k] as f32;
            }
        }
        for k in 0..e {
            rhs[i] += rows[i][k] as f32 * emf[k];
        }
    }
    // Gaussian elimination with partial pivoting.
    let mut x = vec![0.0f32; l];
    for col in 0..l {
        let mut pivot = col;
        for row in col + 1..l {
            if lhs[row][col].abs() > lhs[pivot][col].abs() {
                pivot = row;
            }
        }
        lhs.swap(col, pivot);
        rhs.swap(col, pivot);
        let d = lhs[col][col];
        assert!(d.abs() > 1e-9, "singular mesh system");
        for row in 0..l {
            if row != col {
                let f = lhs[row][col] / d;
                for k in 0..l {
                    lhs[row][k] -= f * lhs[col][k];
                }
                rhs[row] -= f * rhs[col];
            }
        }
    }
    for i in 0..l {
        x[i] = rhs[i] / lhs[i][i];
    }
    let mut currents = vec![0.0f32; e];
    for k in 0..e {
        for i in 0..l {
            currents[k] += rows[i][k] as f32 * x[i];
        }
    }
    currents
}

#[test]
fn add_shares_existing_nodes() {
    let mut c: Circuit<Wire> = Circuit::new();
    c.add([pos(0, 0), pos(1, 0)], Wire).unwrap();
    assert_eq!(c.node_len(), 2);
    // The second element shares the label (1,0): only (2,0) is new.
    c.add([pos(1, 0), pos(2, 0)], Wire).unwrap();
    assert_eq!(c.node_len(), 3);
    // A third element between two existing labels creates no node at all.
    c.add([pos(0, 0), pos(2, 0)], Wire).unwrap();
    assert_eq!(c.node_len(), 3);
}

#[test]
fn add_rejects_self_loop() {
    let mut c: Circuit<Wire> = Circuit::new();
    assert_eq!(
        c.add([pos(3, 3), pos(3, 3)], Wire),
        Err(CircuitError::SelfLoop)
    );
    assert_eq!(c.node_len(), 0);
    assert_eq!(c.iter().len(), 0);
}

#[test]
fn remove_prunes_isolated_nodes() {
    let mut c: Circuit<Wire> = Circuit::new();
    let first = c.add([pos(0, 0), pos(1, 0)], Wire).unwrap();
    c.add([pos(1, 0), pos(2, 0)], Wire).unwrap();
    assert_eq!(c.node_len(), 3);
    // (0,0) loses its only element and goes away; (1,0) stays used.
    c.remove(first).unwrap();
    assert_eq!(c.node_len(), 2);
    assert_eq!(c.iter().len(), 1);
}

#[test]
fn remove_unknown_id_is_recoverable() {
    let mut c: Circuit<Wire> = Circuit::new();
    let id = c.add([pos(0, 0), pos(1, 0)], Wire).unwrap();
    c.remove(id).unwrap();
    assert_eq!(c.remove(id), Err(CircuitError::UnknownElement));
    assert_eq!(c.endpoints(id), Err(CircuitError::UnknownElement));
    assert!(!c.contains(id));
}

#[test]
fn add_remove_round_trip_restores_empty_engine() {
    let mut c: Circuit<Wire> = Circuit::new();
    let id = c.add([pos(4, 4), pos(5, 4)], Wire).unwrap();
    c.remove(id).unwrap();
    assert_eq!(c.iter().len(), 0);
    assert_eq!(c.node_len(), 0);
    let (rows, transposed) = c.loops();
    assert_eq!(rows.len(), 0);
    assert_eq!(transposed.len(), 0);
}

#[test]
fn ids_are_never_reused() {
    let mut c: Circuit<Wire> = Circuit::new();
    let a = c.add([pos(0, 0), pos(1, 0)], Wire).unwrap();
    c.remove(a).unwrap();
    let b = c.add([pos(0, 0), pos(1, 0)], Wire).unwrap();
    assert_ne!(a, b);
}

#[test]
fn endpoints_reverse_maps_labels() {
    let mut c: Circuit<Wire> = Circuit::new();
    let id = c.add([pos(7, -2), pos(0, 9)], Wire).unwrap();
    assert_eq!(c.endpoints(id), Ok([pos(7, -2), pos(0, 9)]));
}

#[test]
fn change_moves_an_endpoint() {
    let mut c: Circuit<Wire> = Circuit::new();
    let id = c.add([pos(0, 0), pos(1, 0)], Wire).unwrap();
    c.add([pos(1, 0), pos(2, 0)], Wire).unwrap();
    assert_eq!(c.node_len(), 3);
    // Move the first element's free endpoint to a brand-new label: the
    // old node (0,0) becomes isolated and leaves, one new node arrives.
    c.change(id, [pos(9, 9), pos(1, 0)]).unwrap();
    assert_eq!(c.node_len(), 3);
    assert_eq!(c.endpoints(id), Ok([pos(9, 9), pos(1, 0)]));
}

#[test]
fn change_rejects_self_loop_and_unknown_id() {
    let mut c: Circuit<Wire> = Circuit::new();
    let id = c.add([pos(0, 0), pos(1, 0)], Wire).unwrap();
    assert_eq!(
        c.change(id, [pos(5, 5), pos(5, 5)]),
        Err(CircuitError::SelfLoop)
    );
    c.remove(id).unwrap();
    assert_eq!(
        c.change(id, [pos(0, 0), pos(2, 0)]),
        Err(CircuitError::UnknownElement)
    );
}

#[test]
fn acyclic_topology_has_empty_loop_matrix_and_zero_currents() {
    let mut c: Circuit<Wire> = Circuit::new();
    // A path of three elements: a tree, no cycle.
    c.add([pos(0, 0), pos(1, 0)], Wire).unwrap();
    c.add([pos(1, 0), pos(2, 0)], Wire).unwrap();
    c.add([pos(2, 0), pos(3, 0)], Wire).unwrap();
    let (rows, _) = c.loops();
    assert_eq!(rows.len(), 0);
    let currents = branch_currents(rows, &[1.0, 1.0, 1.0], &[0.0, 0.0, 0.0]);
    assert_eq!(currents, vec![0.0, 0.0, 0.0]);
}

#[test]
fn single_loop_of_resistor_and_source_carries_two_amperes() {
    // One resistor (5 ohm) in series with one ideal source (10 volt,
    // no internal resistance) around a single loop: V = I R gives I = 2.
    let mut c: Circuit<Wire> = Circuit::new();
    let p = pos(0, 0);
    let q = pos(1, 0);
    let resistor = c.add([p, q], Wire).unwrap();
    let source = c.add([q, p], Wire).unwrap();
    assert!(c.contains(resistor) && c.contains(source));
    let (rows, _) = c.loops();
    assert_eq!(rows.len(), 1);
    let currents = branch_currents(rows, &[5.0, 0.0], &[0.0, 10.0]);
    assert_eq!(currents[0].abs(), 2.0);
    assert_eq!(currents[1].abs(), 2.0);
    // Antiparallel orientation: the loop traverses both elements the same
    // way, so both currents carry the same sign.
    assert_eq!(currents[0], currents[1]);
}

#[test]
fn single_loop_same_orientation_flips_the_sign() {
    let mut c: Circuit<Wire> = Circuit::new();
    let p = pos(0, 0);
    let q = pos(1, 0);
    c.add([p, q], Wire).unwrap();
    c.add([p, q], Wire).unwrap();
    let (rows, _) = c.loops();
    assert_eq!(rows.len(), 1);
    let currents = branch_currents(rows, &[5.0, 0.0], &[0.0, 10.0]);
    assert_eq!(currents[0].abs(), 2.0);
    assert_eq!(currents[1].abs(), 2.0);
    // Parallel orientation: the loop runs with one element and against
    // the other.
    assert_eq!(currents[0], -currents[1]);
}

#[test]
fn two_triangles_sharing_an_edge_have_three_loops() {
    // Five nodes, seven edges, one component: 7 - (5 - 1) = 3 rows.
    let mut c: Circuit<Wire> = Circuit::new();
    let a = pos(0, 0);
    let b = pos(2, 0);
    let t1 = pos(1, 1);
    let t2 = pos(1, -1);
    let far = pos(4, 0);
    c.add([a, b], Wire).unwrap();
    c.add([a, t1], Wire).unwrap();
    c.add([t1, b], Wire).unwrap();
    c.add([a, t2], Wire).unwrap();
    c.add([t2, b], Wire).unwrap();
    c.add([b, far], Wire).unwrap();
    c.add([far, a], Wire).unwrap();
    assert_eq!(c.node_len(), 5);
    assert_eq!(c.iter().len(), 7);
    let (rows, transposed) = c.loops();
    assert_eq!(rows.len(), 3);
    assert_eq!(transposed.len(), 7);
    for row in rows {
        assert_eq!(row.len(), 7);
    }
}

#[test]
fn repeated_solves_are_identical() {
    let mut c: Circuit<Wire> = Circuit::new();
    let p = pos(0, 0);
    let q = pos(1, 0);
    c.add([p, q], Wire).unwrap();
    c.add([q, p], Wire).unwrap();
    let first = {
        let (rows, _) = c.loops();
        branch_currents(rows, &[5.0, 0.0], &[0.0, 10.0])
    };
    let second = {
        let (rows, _) = c.loops();
        branch_currents(rows, &[5.0, 0.0], &[0.0, 10.0])
    };
    assert_eq!(first, second);
}

#[test]
fn get_mut_reaches_the_payload() {
    let mut c: Circuit<u32> = Circuit::new();
    let id = c.add([pos(0, 0), pos(1, 0)], 17).unwrap();
    assert!(c.contains(id));
    *c.get_mut(id) = 99;
    let items = c.iter();
    assert_eq!(items.len(), 1);
    assert_eq!(items[0].0, id);
    assert_eq!(*items[0].1, 99);
}

#[test]
fn element_kinds_ride_along_as_payloads() {
    let mut c: Circuit<ElementType> = Circuit::new();
    let r = c
        .add([pos(0, 0), pos(1, 0)], ElementType::Resistor)
        .unwrap();
    let s = c
        .add([pos(1, 0), pos(0, 0)], ElementType::CurrentSource)
        .unwrap();
    assert!(c.contains(r) && c.contains(s));
    assert_eq!(*c.get_mut(r), ElementType::Resistor);
    *c.get_mut(s) = ElementType::Wire;
    let kinds: Vec<ElementType> = c.iter().iter().map(|(_, k)| **k).collect();
    assert_eq!(kinds, vec![ElementType::Resistor, ElementType::Wire]);
}

#[test]
fn removing_one_parallel_element_keeps_the_other() {
    let mut c: Circuit<Wire> = Circuit::new();
    let p = pos(0, 0);
    let q = pos(1, 0);
    let first = c.add([p, q], Wire).unwrap();
    let second = c.add([p, q], Wire).unwrap();
    assert_eq!(c.loops().0.len(), 1);
    c.remove(first).unwrap();
    // The second element still joins the pair: both nodes survive, and
    // with a single edge left there is no cycle any more.
    assert_eq!(c.node_len(), 2);
    assert_eq!(c.endpoints(second), Ok([p, q]));
    assert_eq!(c.loops().0.len(), 0);
}

#[test]
fn change_breaks_and_closes_cycles() {
    let mut c: Circuit<Wire> = Circuit::new();
    let a = pos(0, 0);
    let b = pos(1, 0);
    let d = pos(0, 1);
    c.add([a, b], Wire).unwrap();
    c.add([b, d], Wire).unwrap();
    let closing = c.add([d, a], Wire).unwrap();
    assert_eq!(c.loops().0.len(), 1);
    // Re-routing the closing element to a fresh endpoint opens the cycle.
    c.change(closing, [d, pos(5, 5)]).unwrap();
    assert_eq!(c.loops().0.len(), 0);
    // Moving it back closes it again.
    c.change(closing, [d, a]).unwrap();
    assert_eq!(c.loops().0.len(), 1);
}
