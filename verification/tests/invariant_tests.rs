use num_complex::Complex64;
use sparse_sim::index::BasisIndex;
use sparse_sim::sim::QuantumSim;
use sparse_sim::UsageError;
use std::f64::consts::PI;

fn total_norm(sim: &QuantumSim) -> f64 {
    sim.amplitudes().iter().map(|a| a.norm_sqr()).sum()
}

fn assert_normalized(sim: &QuantumSim) {
    let n = total_norm(sim);
    assert!((n - 1.0).abs() <= 1e-10, "norm {n} drifted from one");
}

/// The sum of squared magnitudes stays at one, within tolerance, after
/// every kind of operation.
#[test]
fn test_norm_invariant() {
    let mut sim = QuantumSim::new_seeded(11);
    let q0 = sim.allocate();
    assert_normalized(&sim);
    let q1 = sim.allocate();
    let q2 = sim.allocate();
    assert_normalized(&sim);
    sim.h(q0).unwrap();
    assert_normalized(&sim);
    sim.mcx(&[q0], q1).unwrap();
    assert_normalized(&sim);
    sim.ry(Complex64::from(PI / 5.0), q2).unwrap();
    assert_normalized(&sim);
    sim.t(q1).unwrap();
    sim.rz(Complex64::from(PI / 3.0), q0).unwrap();
    sim.mcphase(&[q0], Complex64::new(0.6, 0.8), q1).unwrap();
    assert_normalized(&sim);
    let _ = sim.measure(q2).unwrap();
    assert_normalized(&sim);
    sim.release(q1).unwrap();
    assert_normalized(&sim);
    sim.release(q2).unwrap();
    sim.release(q0).unwrap();
}

fn high_bits_clear(key: &BasisIndex, qubits: usize) -> bool {
    let limbs = key.to_limbs();
    for (i, l) in limbs.iter().enumerate() {
        for b in 0..64 {
            if (l >> b) & 1 == 1 && i * 64 + b >= qubits {
                return false;
            }
        }
    }
    true
}

/// No stored key uses a bit position at or above the current qubit count.
#[test]
fn test_keys_within_qubit_count() {
    let mut sim = QuantumSim::new_seeded(3);
    let q0 = sim.allocate();
    let q1 = sim.allocate();
    sim.h(q0).unwrap();
    sim.mcx(&[q0], q1).unwrap();
    let n = sim.qubit_len();
    for (k, _) in sim.dump() {
        assert!(high_bits_clear(&k, n));
    }
    sim.release(q1).unwrap();
    let n = sim.qubit_len();
    for (k, _) in sim.dump() {
        assert!(high_bits_clear(&k, n));
    }
}

/// Applying X twice returns the exact pre-state, amplitudes included.
#[test]
fn test_x_twice_exact() {
    let mut sim = QuantumSim::new_seeded(5);
    let q0 = sim.allocate();
    let q1 = sim.allocate();
    sim.h(q0).unwrap();
    sim.t(q0).unwrap();
    sim.mcx(&[q0], q1).unwrap();
    let before: Vec<(Vec<u64>, Complex64)> =
        sim.dump().iter().map(|(k, v)| (k.to_limbs(), *v)).collect();
    sim.x(q1).unwrap();
    sim.x(q1).unwrap();
    let after: Vec<(Vec<u64>, Complex64)> =
        sim.dump().iter().map(|(k, v)| (k.to_limbs(), *v)).collect();
    assert_eq!(before, after);
}

/// Swapping two qubit identifiers twice returns the exact pre-state.
#[test]
fn test_swap_ids_twice_exact() {
    let mut sim = QuantumSim::new_seeded(7);
    let q0 = sim.allocate();
    let q1 = sim.allocate();
    sim.h(q0).unwrap();
    sim.t(q1).unwrap();
    let before: Vec<(Vec<u64>, Complex64)> =
        sim.dump().iter().map(|(k, v)| (k.to_limbs(), *v)).collect();
    sim.swap_qubit_ids(q0, q1).unwrap();
    sim.swap_qubit_ids(q0, q1).unwrap();
    let after: Vec<(Vec<u64>, Complex64)> =
        sim.dump().iter().map(|(k, v)| (k.to_limbs(), *v)).collect();
    assert_eq!(before, after);
}

/// After a measurement the measured qubit's probability is exactly zero or
/// one's worth of certainty: measuring again on the zero side reads exactly
/// `0.0`.
#[test]
fn test_measure_exact_zero() {
    let mut sim = QuantumSim::new_seeded(13);
    let q = sim.allocate();
    sim.h(q).unwrap();
    let res = sim.measure(q).unwrap();
    if res {
        // All surviving keys read one at the qubit; flip them to zero.
        sim.x(q).unwrap();
    }
    assert_eq!(prob_re(&sim, &[q]), 0.0);
    sim.release(q).unwrap();
}

fn prob_re(sim: &QuantumSim, ids: &[usize]) -> f64 {
    sim.joint_probability(ids).unwrap().re
}

/// The first allocation seeds the exact ground state: one entry, all-zero
/// key, amplitude exactly one.
#[test]
fn test_ground_state() {
    let mut sim = QuantumSim::new();
    let q = sim.allocate();
    let entries = sim.dump();
    assert_eq!(entries.len(), 1);
    assert!(high_bits_clear(&entries[0].0, 0));
    assert_eq!(entries[0].1, Complex64::new(1.0, 0.0));
    sim.release(q).unwrap();
}

/// The T gate's phase comes from the square root of the imaginary unit: a
/// one-bit amplitude picks up `(1 + i) / sqrt(2)` within tolerance, so the
/// wrapper really rotated it.
#[test]
fn test_t_phase_value() {
    let mut sim = QuantumSim::new_seeded(17);
    let q = sim.allocate();
    sim.x(q).unwrap();
    sim.t(q).unwrap();
    let entries = sim.dump();
    assert_eq!(entries.len(), 1);
    let a = entries[0].1;
    assert!((a.re - std::f64::consts::FRAC_1_SQRT_2).abs() <= 1e-10);
    assert!((a.im - std::f64::consts::FRAC_1_SQRT_2).abs() <= 1e-10);
    sim.release(q).unwrap();
}

/// Joint probabilities always land in the unit interval.
#[test]
fn test_probability_in_unit_interval() {
    let mut sim = QuantumSim::new_seeded(19);
    let q0 = sim.allocate();
    let q1 = sim.allocate();
    sim.h(q0).unwrap();
    sim.ry(Complex64::from(1.1), q1).unwrap();
    for ids in [vec![q0], vec![q1], vec![q0, q1]] {
        let p = prob_re(&sim, &ids);
        assert!((0.0..=1.0).contains(&p));
    }
    sim.release(q1).unwrap();
    sim.release(q0).unwrap();
}

/// An operation on an identifier that was never allocated, or was released,
/// reports it as unknown and leaves the state alone.
#[test]
fn test_unknown_id_errors() {
    let mut sim = QuantumSim::new();
    let q = sim.allocate();
    assert_eq!(sim.x(5), Err(UsageError::UnknownId(5)));
    assert_eq!(sim.measure(7), Err(UsageError::UnknownId(7)));
    assert_eq!(sim.mcx(&[9], q), Err(UsageError::UnknownId(9)));
    assert_eq!(
        sim.joint_probability(&[q, 3]),
        Err(UsageError::UnknownId(3))
    );
    assert_eq!(sim.release(2), Err(UsageError::UnknownId(2)));
    sim.release(q).unwrap();
    assert_eq!(sim.z(q), Err(UsageError::UnknownId(q)));
}

/// Duplicates in a joint measurement's list are reported before resolution.
#[test]
fn test_joint_duplicate_errors() {
    let mut sim = QuantumSim::new();
    let q0 = sim.allocate();
    let q1 = sim.allocate();
    assert_eq!(
        sim.joint_probability(&[q1, q0, q1]),
        Err(UsageError::DuplicateId(q1))
    );
    assert_eq!(
        sim.joint_measure(&[q0, q0]),
        Err(UsageError::DuplicateId(q0))
    );
}

/// The dump ordering is ascending by basis index after relabeling to
/// identifier order.
#[test]
fn test_dump_sorted() {
    let mut sim = QuantumSim::new_seeded(23);
    let q0 = sim.allocate();
    let q1 = sim.allocate();
    let q2 = sim.allocate();
    sim.h(q0).unwrap();
    sim.h(q1).unwrap();
    sim.x(q2).unwrap();
    let entries = sim.dump();
    assert_eq!(entries.len(), 4);
    let keys: Vec<Vec<u64>> = entries.iter().map(|(k, _)| k.to_limbs()).collect();
    for w in keys.windows(2) {
        assert!(w[0] < w[1]);
    }
    // All four entries read one at the third qubit's location.
    for (k, _) in &entries {
        assert!(k.get_bit(2));
    }
}

/// Allocation fills the gap left by a release with the smallest free
/// identifier.
#[test]
fn test_allocation_fills_gaps() {
    let mut sim = QuantumSim::new_seeded(29);
    for i in 0..16 {
        assert_eq!(sim.allocate(), i);
    }
    sim.release(4).unwrap();
    assert_eq!(sim.allocate(), 4);
}

/// Rz and its opposite angle cancel exactly enough for the pruning policy
/// to give back a single-entry state.
#[test]
fn test_rz_inverse_entry_count() {
    let mut sim = QuantumSim::new_seeded(31);
    let q = sim.allocate();
    sim.h(q).unwrap();
    sim.rz(Complex64::from(PI / 7.0), q).unwrap();
    sim.rz(Complex64::from(-PI / 7.0), q).unwrap();
    sim.h(q).unwrap();
    assert_eq!(sim.state_len(), 1);
    assert!(prob_re(&sim, &[q]).abs() <= 1e-10);
}

/// A joint probability over no qubits has no odd-parity entries, so it is
/// exactly zero, and a joint measurement over no qubits keeps the state.
#[test]
fn test_empty_target_list() {
    let mut sim = QuantumSim::new_seeded(37);
    let q = sim.allocate();
    sim.h(q).unwrap();
    assert_eq!(prob_re(&sim, &[]), 0.0);
    assert!(!sim.joint_measure(&[]).unwrap());
    assert_eq!(sim.state_len(), 2);
    assert_normalized(&sim);
}

/// A rotation validates its operands before taking any degenerate-angle
/// shortcut: even an identity-angle rotation rejects unknown or duplicate
/// qubits.
#[test]
fn test_rotation_validates_operands() {
    let mut sim = QuantumSim::new_seeded(41);
    let q = sim.allocate();
    assert_eq!(
        sim.rx(Complex64::from(0.0), 9),
        Err(UsageError::UnknownId(9))
    );
    assert_eq!(
        sim.mcry(&[q], Complex64::from(0.0), q),
        Err(UsageError::DuplicateId(q))
    );
    assert_eq!(sim.rx(Complex64::from(0.0), q), Ok(()));
    assert_eq!(sim.state_len(), 1);
}
