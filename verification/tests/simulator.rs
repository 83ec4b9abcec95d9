use quantum_sim::amplitude::Amplitude;
use quantum_sim::circuit::QuantumCircuit;
use quantum_sim::gate::Gate;

/// Probabilities as floats: numerator over `2^shift`.
fn float_probabilities(c: &QuantumCircuit) -> Vec<f64> {
    let denom = (1u64 << c.shift()) as f64;
    c.probabilities().iter().map(|&n| n as f64 / denom).collect()
}

fn assert_close(a: &[f64], b: &[f64]) {
    assert_eq!(a.len(), b.len());
    for (x, y) in a.iter().zip(b.iter()) {
        assert!((x - y).abs() < 1e-9, "expected {:?}, got {:?}", b, a);
    }
}

#[test]
fn probabilities_sum_to_one_exactly() {
    // Sum of probability numerators equals 2^shift exactly, for a few
    // circuits over different qubit counts and initial states.
    let mut c = QuantumCircuit::from_states(3, vec![1]);
    for g in [Gate::H(0), Gate::H(2), Gate::X(1), Gate::CX(2, 0), Gate::H(0)] {
        c.apply_gate(g);
        let total: u64 = c.probabilities().iter().sum();
        assert_eq!(total, 1u64 << c.shift());
        let fsum: f64 = float_probabilities(&c).iter().sum();
        assert!((fsum - 1.0).abs() < 1e-9);
    }
}

#[test]
fn hadamard_twice_is_identity() {
    let mut c = QuantumCircuit::from_states(2, vec![1]);
    c.apply_gate(Gate::H(1));
    c.apply_gate(Gate::CX(1, 0));
    let before = c.state().clone();
    let shift_before = c.shift();
    c.apply_gate(Gate::H(0));
    c.apply_gate(Gate::H(0));
    assert_eq!(c.state(), &before);
    assert_eq!(c.shift(), shift_before);
}

#[test]
fn pauli_x_twice_is_identity() {
    let mut c = QuantumCircuit::from_states(2, vec![]);
    c.apply_gate(Gate::H(0));
    let before = c.state().clone();
    let shift_before = c.shift();
    c.apply_gate(Gate::X(1));
    c.apply_gate(Gate::X(1));
    assert_eq!(c.state(), &before);
    assert_eq!(c.shift(), shift_before);
}

#[test]
fn cnot_twice_is_identity() {
    let mut c = QuantumCircuit::from_states(3, vec![0]);
    c.apply_gate(Gate::H(1));
    let before = c.state().clone();
    let shift_before = c.shift();
    c.apply_gate(Gate::CX(0, 2));
    c.apply_gate(Gate::CX(0, 2));
    assert_eq!(c.state(), &before);
    assert_eq!(c.shift(), shift_before);
}

#[test]
fn measure_collapses_to_outcome() {
    let mut c = QuantumCircuit::from_states(2, vec![]);
    c.apply_gate(Gate::H(0));
    c.apply_gate(Gate::H(1));
    let outcome = c.measure();
    assert!(outcome < 4);
    let probs = c.probabilities();
    assert_eq!(c.shift(), 0);
    for (i, &p) in probs.iter().enumerate() {
        assert_eq!(p, if i == outcome { 1 } else { 0 });
    }
}

#[test]
fn hadamard_on_fresh_qubit_gives_half_half() {
    let mut c = QuantumCircuit::from_states(1, vec![]);
    c.apply_gate(Gate::H(0));
    assert_eq!(c.probabilities(), vec![1, 1]);
    assert_eq!(c.shift(), 1);
    assert_close(&float_probabilities(&c), &[0.5, 0.5]);
}

#[test]
fn pauli_x_flips_fresh_qubit() {
    let mut c = QuantumCircuit::from_states(1, vec![]);
    c.apply_gate(Gate::X(0));
    assert_close(&float_probabilities(&c), &[0.0, 1.0]);
}

#[test]
fn cnot_excites_target_when_control_excited() {
    let mut c = QuantumCircuit::from_states(2, vec![0]);
    c.apply_gate(Gate::CX(0, 1));
    assert_close(&float_probabilities(&c), &[0.0, 0.0, 0.0, 1.0]);
}

#[test]
fn bell_state_correlates_qubits() {
    let mut c = QuantumCircuit::from_states(2, vec![]);
    c.apply_gate(Gate::H(0));
    c.apply_gate(Gate::CX(0, 1));
    assert_close(&float_probabilities(&c), &[0.5, 0.0, 0.0, 0.5]);
}

#[test]
fn measurement_with_zero_sample_is_deterministic() {
    // A fixed sample standing for the real number 0.0 always selects the
    // first basis state of positive probability.
    let mut c = QuantumCircuit::from_states(2, vec![]);
    c.apply_gate(Gate::H(0));
    c.apply_gate(Gate::H(1));
    let outcome = c.measure_with_sample(0);
    assert_eq!(outcome, 0);
    assert_eq!(c.probabilities(), vec![1, 0, 0, 0]);
}

#[test]
fn measure_with_sample_walks_the_cdf() {
    // On a uniform 2-qubit state the quarters of [0, 1) map to the four
    // outcomes in index order.
    for (sample, expected) in [
        (0u64, 0usize),
        (1u64 << 62, 1),
        (2u64 << 62, 2),
        (3u64 << 62, 3),
        (u64::MAX, 3),
    ] {
        let mut c = QuantumCircuit::from_states(2, vec![]);
        c.apply_gate(Gate::H(0));
        c.apply_gate(Gate::H(1));
        assert_eq!(c.measure_with_sample(sample), expected);
    }
}

#[test]
fn initial_states_set_basis_index() {
    let c = QuantumCircuit::from_states(3, vec![0, 2]);
    let probs = c.probabilities();
    // qubit 0 is the least significant bit: index 0b101 = 5.
    for (i, &p) in probs.iter().enumerate() {
        assert_eq!(p, if i == 5 { 1 } else { 0 });
    }
}

#[test]
fn duplicate_initial_states_are_idempotent() {
    let once = QuantumCircuit::from_states(2, vec![1]);
    let twice = QuantumCircuit::from_states(2, vec![1, 1, 1]);
    assert_eq!(once.probabilities(), twice.probabilities());
    assert_eq!(once.state(), twice.state());
}

#[test]
fn state_exposes_exact_amplitudes() {
    let mut c = QuantumCircuit::from_states(1, vec![]);
    c.apply_gate(Gate::H(0));
    // |+> = (1, 1) over sqrt(2)^1.
    assert_eq!(c.state(), &vec![Amplitude { re: 1, im: 0 }, Amplitude { re: 1, im: 0 }]);
    assert_eq!(c.shift(), 1);
    // |-> = H |1> carries the sign on index 1.
    let mut d = QuantumCircuit::from_states(1, vec![0]);
    d.apply_gate(Gate::H(0));
    assert_eq!(d.state(), &vec![Amplitude { re: 1, im: 0 }, Amplitude { re: -1, im: 0 }]);
    assert_eq!(d.shift(), 1);
}

#[test]
fn shift_stays_reduced_after_cancelling_hadamards() {
    let mut c = QuantumCircuit::from_states(2, vec![]);
    c.apply_gate(Gate::H(0));
    assert_eq!(c.shift(), 1);
    c.apply_gate(Gate::H(0));
    // The reduction cancels the exponent back to zero.
    assert_eq!(c.shift(), 0);
    assert_eq!(c.probabilities(), vec![1, 0, 0, 0]);
}

#[test]
fn random_measurement_lands_on_support() {
    // Whatever the draw, the outcome has positive probability: on
    // H(0) |00> only indices 0 and 1 are possible.
    for _ in 0..32 {
        let mut c = QuantumCircuit::from_states(2, vec![]);
        c.apply_gate(Gate::H(0));
        let outcome = c.measure();
        assert!(outcome == 0 || outcome == 1);
    }
}

#[test]
fn amplitude_arithmetic() {
    let a = Amplitude::new(3, -4);
    assert_eq!(a.norm_sqr(), 25);
    let b = Amplitude::new(1, 2);
    let s = a.add(b);
    assert_eq!((s.re, s.im), (4, -2));
    let d = a.sub(b);
    assert_eq!((d.re, d.im), (2, -6));
    let k = b.scale(-3);
    assert_eq!((k.re, k.im), (-3, -6));
    assert_eq!(Amplitude::new(i64::MIN, i64::MIN).norm_sqr(), 2u128.pow(127));
}

#[test]
fn wide_register_stays_normalized() {
    // Sixteen qubits: Hadamard on each gives the uniform superposition
    // over 65536 basis states; the numerators still sum to exactly 2^shift.
    let mut c = QuantumCircuit::from_states(16, vec![3, 7]);
    for q in 0..16 {
        c.apply_gate(Gate::H(q));
    }
    assert_eq!(c.shift(), 16);
    let probs = c.probabilities();
    assert_eq!(probs.len(), 1 << 16);
    assert!(probs.iter().all(|&p| p == 1));
    let total: u64 = probs.iter().sum();
    assert_eq!(total, 1u64 << 16);
    assert_eq!(c.measure_with_sample(0), 0);
}
