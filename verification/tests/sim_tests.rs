use num_complex::Complex64;
use sparse_sim::sim::QuantumSim;
use sparse_sim::UsageError;
use std::f64::consts::PI;

fn almost_equal(a: f64, b: f64) -> bool {
    a.max(b) - b.min(a) <= 1e-10
}

fn prob(sim: &QuantumSim, ids: &[usize]) -> f64 {
    sim.joint_probability(ids).unwrap().re
}

// Test that basic allocation and release of qubits doesn't fail.
#[test]
fn test_alloc_release() {
    let sim = &mut QuantumSim::default();
    for i in 0..16 {
        assert_eq!(sim.allocate(), i);
    }
    sim.release(4).unwrap();
    sim.release(7).unwrap();
    sim.release(12).unwrap();
    assert_eq!(sim.allocate(), 4);
    for i in 0..7 {
        sim.release(i).unwrap();
    }
    for i in 8..12 {
        sim.release(i).unwrap();
    }
    for i in 13..16 {
        sim.release(i).unwrap();
    }
}

/// Verifies that application of gates to a qubit results in the correct probabilities.
#[test]
fn test_probability() {
    let mut sim = QuantumSim::default();
    let q = sim.allocate();
    let extra = sim.allocate();
    assert!(almost_equal(0.0, prob(&sim, &[q])));
    sim.x(q).unwrap();
    assert!(almost_equal(1.0, prob(&sim, &[q])));
    sim.x(q).unwrap();
    assert!(almost_equal(0.0, prob(&sim, &[q])));
    sim.h(q).unwrap();
    assert!(almost_equal(0.5, prob(&sim, &[q])));
    sim.h(q).unwrap();
    assert!(almost_equal(0.0, prob(&sim, &[q])));
    sim.x(q).unwrap();
    sim.h(q).unwrap();
    sim.s(q).unwrap();
    assert!(almost_equal(0.5, prob(&sim, &[q])));
    sim.sadj(q).unwrap();
    sim.h(q).unwrap();
    sim.x(q).unwrap();
    assert!(almost_equal(0.0, prob(&sim, &[q])));
    sim.release(extra).unwrap();
    sim.release(q).unwrap();
}

/// Verify that a qubit in superposition has probability corresponding the measured value and
/// can be operationally reset back into the ground state.
#[test]
fn test_measure() {
    let mut sim = QuantumSim::default();
    let q = sim.allocate();
    let extra = sim.allocate();
    assert!(!sim.measure(q).unwrap());
    sim.x(q).unwrap();
    assert!(sim.measure(q).unwrap());
    let mut res = false;
    while !res {
        sim.h(q).unwrap();
        res = sim.measure(q).unwrap();
        assert!(almost_equal(prob(&sim, &[q]), if res { 1.0 } else { 0.0 }));
        if res {
            sim.x(q).unwrap();
        }
    }
    assert!(almost_equal(prob(&sim, &[q]), 0.0));
    sim.release(extra).unwrap();
    sim.release(q).unwrap();
}

/// Verify joint probability works as expected, namely that it corresponds to the parity of the
/// qubits.
#[test]
fn test_joint_probability() {
    let mut sim = QuantumSim::default();
    let q0 = sim.allocate();
    let q1 = sim.allocate();
    assert!(almost_equal(0.0, prob(&sim, &[q0, q1])));
    sim.x(q0).unwrap();
    assert!(almost_equal(1.0, prob(&sim, &[q0, q1])));
    sim.x(q1).unwrap();
    assert!(almost_equal(0.0, prob(&sim, &[q0, q1])));
    assert!(almost_equal(1.0, prob(&sim, &[q0])));
    assert!(almost_equal(1.0, prob(&sim, &[q1])));
    sim.h(q0).unwrap();
    assert!(almost_equal(0.5, prob(&sim, &[q0, q1])));
    sim.release(q1).unwrap();
    sim.release(q0).unwrap();
}

/// Verify joint measurement works as expected, namely that it corresponds to the parity of the
/// qubits.
#[test]
fn test_joint_measurement() {
    let mut sim = QuantumSim::default();
    let q0 = sim.allocate();
    let q1 = sim.allocate();
    assert!(!sim.joint_measure(&[q0, q1]).unwrap());
    sim.x(q0).unwrap();
    assert!(sim.joint_measure(&[q0, q1]).unwrap());
    sim.x(q1).unwrap();
    assert!(!sim.joint_measure(&[q0, q1]).unwrap());
    assert!(sim.joint_measure(&[q0]).unwrap());
    assert!(sim.joint_measure(&[q1]).unwrap());
    sim.h(q0).unwrap();
    let res = sim.joint_measure(&[q0, q1]).unwrap();
    assert!(almost_equal(
        if res { 1.0 } else { 0.0 },
        prob(&sim, &[q0, q1])
    ));
    sim.release(q1).unwrap();
    sim.release(q0).unwrap();
}

/// Test arbitrary controls, which should extend the applied unitary matrix.
#[test]
fn test_arbitrary_controls() {
    let mut sim = QuantumSim::default();
    let q0 = sim.allocate();
    let q1 = sim.allocate();
    let q2 = sim.allocate();
    assert!(almost_equal(0.0, prob(&sim, &[q0])));
    sim.h(q0).unwrap();
    assert!(almost_equal(0.5, prob(&sim, &[q0])));
    sim.h(q0).unwrap();
    assert!(almost_equal(0.0, prob(&sim, &[q0])));
    sim.mch(&[q1], q0).unwrap();
    assert!(almost_equal(0.0, prob(&sim, &[q0])));
    sim.x(q1).unwrap();
    sim.mch(&[q1], q0).unwrap();
    assert!(almost_equal(0.5, prob(&sim, &[q0])));
    sim.mch(&[q2, q1], q0).unwrap();
    assert!(almost_equal(0.5, prob(&sim, &[q0])));
    sim.x(q2).unwrap();
    sim.mch(&[q2, q1], q0).unwrap();
    assert!(almost_equal(0.0, prob(&sim, &[q0])));
    sim.x(q0).unwrap();
    sim.x(q1).unwrap();
    sim.release(q2).unwrap();
    sim.release(q1).unwrap();
    sim.release(q0).unwrap();
}

/// Verify that targets cannot be duplicated.
#[test]
fn test_duplicate_target() {
    let mut sim = QuantumSim::new();
    let q = sim.allocate();
    assert_eq!(sim.mcx(&[q], q), Err(UsageError::DuplicateId(0)));
}

/// Verify that controls cannot be duplicated.
#[test]
fn test_duplicate_control() {
    let mut sim = QuantumSim::new();
    let q = sim.allocate();
    let c = sim.allocate();
    assert_eq!(sim.mcx(&[c, c], q), Err(UsageError::DuplicateId(1)));
}

/// Verify that targets aren't in controls.
#[test]
fn test_target_in_control() {
    let mut sim = QuantumSim::new();
    let q = sim.allocate();
    let c = sim.allocate();
    assert_eq!(sim.mcx(&[c, q], q), Err(UsageError::DuplicateId(0)));
}

/// Large, entangled state handling: the sparse state of a GHZ-like chain
/// stays at two entries until measurement and one after it.
#[test]
fn test_large_state() {
    let mut sim = QuantumSim::new();
    let ctl = sim.allocate();
    sim.h(ctl).unwrap();
    for _ in 0..4999 {
        let q = sim.allocate();
        sim.mcx(&[ctl], q).unwrap();
    }
    assert_eq!(sim.state_len(), 2);
    let _ = sim.measure(ctl).unwrap();
    assert_eq!(sim.state_len(), 1);
    for i in 0..5000 {
        sim.release(i).unwrap();
    }
}

/// Utility for testing operation equivalence.
fn assert_operation_equal_referenced<F1, F2>(mut op: F1, mut reference: F2, count: usize)
where
    F1: FnMut(&mut QuantumSim, &[usize]),
    F2: FnMut(&mut QuantumSim, &[usize]),
{
    let mut sim = QuantumSim::default();

    // Allocate the control we use to verify behavior.
    let ctl = sim.allocate();
    sim.h(ctl).unwrap();

    // Allocate the requested number of targets, entangling the control with them.
    let mut qs = vec![];
    for _ in 0..count {
        let q = sim.allocate();
        sim.mcx(&[ctl], q).unwrap();
        qs.push(q);
    }

    op(&mut sim, &qs);
    reference(&mut sim, &qs);

    // Undo the entanglement.
    for q in qs {
        sim.mcx(&[ctl], q).unwrap();
    }
    sim.h(ctl).unwrap();

    // We know the operations are equal if the control is left in the zero state.
    assert!(prob(&sim, &[ctl]).abs() <= 1e-10);

    // Sparse state vector should have one entry for |0⟩.
    assert_eq!(sim.state_len(), 1);
}

#[test]
fn test_h() {
    assert_operation_equal_referenced(
        |sim, qs| {
            sim.h(qs[0]).unwrap();
        },
        |sim, qs| {
            sim.h(qs[0]).unwrap();
        },
        1,
    );
}

#[test]
fn test_x() {
    assert_operation_equal_referenced(
        |sim, qs| {
            sim.x(qs[0]).unwrap();
        },
        |sim, qs| {
            sim.x(qs[0]).unwrap();
        },
        1,
    );
}

#[test]
fn test_y() {
    assert_operation_equal_referenced(
        |sim, qs| {
            sim.y(qs[0]).unwrap();
        },
        |sim, qs| {
            sim.y(qs[0]).unwrap();
        },
        1,
    );
}

#[test]
fn test_z() {
    assert_operation_equal_referenced(
        |sim, qs| {
            sim.z(qs[0]).unwrap();
        },
        |sim, qs| {
            sim.z(qs[0]).unwrap();
        },
        1,
    );
}

#[test]
fn test_s() {
    assert_operation_equal_referenced(
        |sim, qs| {
            sim.s(qs[0]).unwrap();
        },
        |sim, qs| {
            sim.sadj(qs[0]).unwrap();
        },
        1,
    );
}

#[test]
fn test_sadj() {
    assert_operation_equal_referenced(
        |sim, qs| {
            sim.sadj(qs[0]).unwrap();
        },
        |sim, qs| {
            sim.s(qs[0]).unwrap();
        },
        1,
    );
}

#[test]
fn test_t_adjoint() {
    assert_operation_equal_referenced(
        |sim, qs| {
            sim.t(qs[0]).unwrap();
        },
        |sim, qs| {
            sim.tadj(qs[0]).unwrap();
        },
        1,
    );
}

#[test]
fn test_cx() {
    assert_operation_equal_referenced(
        |sim, qs| {
            sim.mcx(&[qs[0]], qs[1]).unwrap();
        },
        |sim, qs| {
            sim.mcx(&[qs[0]], qs[1]).unwrap();
        },
        2,
    );
}

#[test]
fn test_cz() {
    assert_operation_equal_referenced(
        |sim, qs| {
            sim.mcz(&[qs[0]], qs[1]).unwrap();
        },
        |sim, qs| {
            sim.mcz(&[qs[0]], qs[1]).unwrap();
        },
        2,
    );
}

#[test]
fn test_swap() {
    assert_operation_equal_referenced(
        |sim, qs| {
            sim.swap_qubit_ids(qs[0], qs[1]).unwrap();
        },
        |sim, qs| {
            sim.swap_qubit_ids(qs[0], qs[1]).unwrap();
        },
        2,
    );
}

#[test]
fn test_rz() {
    assert_operation_equal_referenced(
        |sim, qs| {
            sim.rz(Complex64::from(PI / 7.0), qs[0]).unwrap();
        },
        |sim, qs| {
            sim.rz(Complex64::from(-PI / 7.0), qs[0]).unwrap();
        },
        1,
    );
}

#[test]
fn test_rx() {
    assert_operation_equal_referenced(
        |sim, qs| {
            sim.rx(Complex64::from(PI / 7.0), qs[0]).unwrap();
        },
        |sim, qs| {
            sim.rx(Complex64::from(-PI / 7.0), qs[0]).unwrap();
        },
        1,
    );
}

#[test]
fn test_ry() {
    assert_operation_equal_referenced(
        |sim, qs| {
            sim.ry(Complex64::from(PI / 7.0), qs[0]).unwrap();
        },
        |sim, qs| {
            sim.ry(Complex64::from(-PI / 7.0), qs[0]).unwrap();
        },
        1,
    );
}

#[test]
fn test_mcri() {
    assert_operation_equal_referenced(
        |sim, qs| {
            sim.mcphase(
                &qs[2..3],
                Complex64::exp(Complex64::new(0.0, -(PI / 7.0) / 2.0)),
                qs[1],
            )
            .unwrap();
        },
        |sim, qs| {
            sim.mcphase(
                &qs[2..3],
                Complex64::exp(Complex64::new(0.0, (PI / 7.0) / 2.0)),
                qs[1],
            )
            .unwrap();
        },
        3,
    );
}
