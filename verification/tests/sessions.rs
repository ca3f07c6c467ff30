use qsim::circuit::QuantumCircuit;
use qsim::complex::Gaussian;
use qsim::error::SimError;
use qsim::library::{fourier_gate, hadamard_gate, identity_gate, pauli_z_gate};
use qsim::noise::Probability;
use qsim::qubits::{bit_is_set, dimension, with_bit_flipped};
use qsim::state::AmplitudeVector;
use rand::rngs::StdRng;
use rand::SeedableRng;

fn z(re: i64, im: i64) -> Gaussian {
    Gaussian::new(re, im)
}

fn amplitudes(circuit: &QuantumCircuit) -> Vec<Gaussian> {
    let v = circuit.state();
    (0..v.len()).map(|i| v.amplitude(i)).collect()
}

fn mixed_session() -> QuantumCircuit {
    let state =
        AmplitudeVector::from_parts(vec![z(1, 2), z(-3, 0), z(0, 5), z(4, -4)], 6).unwrap();
    QuantumCircuit::with_state(2, state).unwrap()
}

#[test]
fn a_new_session_starts_in_the_all_zero_state() {
    let circuit = QuantumCircuit::new(2).unwrap();
    assert_eq!(circuit.num_qubits(), 2);
    assert_eq!(amplitudes(&circuit), vec![z(1, 0), z(0, 0), z(0, 0), z(0, 0)]);
    assert_eq!(circuit.state().sqrt2_exp(), 0);
    assert_eq!(circuit.check_norm(), Ok(()));
    assert_eq!(amplitudes(&QuantumCircuit::new(0).unwrap()), vec![z(1, 0)]);
    assert_eq!(QuantumCircuit::new(10).unwrap().state().len(), 1024);
    assert!(QuantumCircuit::new(11).is_none());
}

#[test]
fn a_session_takes_a_state_of_its_own_dimension_only() {
    let three = AmplitudeVector::from_parts(vec![z(1, 0), z(0, 0), z(0, 0)], 0).unwrap();
    assert!(QuantumCircuit::with_state(2, three).is_none());
    let four = AmplitudeVector::basis(4, 3).unwrap();
    assert!(QuantumCircuit::with_state(1, four).is_none());
    let four = AmplitudeVector::basis(4, 3).unwrap();
    assert!(QuantumCircuit::with_state(11, four).is_none());
    let four = AmplitudeVector::basis(4, 3).unwrap();
    let circuit = QuantumCircuit::with_state(2, four).unwrap();
    assert_eq!(amplitudes(&circuit), vec![z(0, 0), z(0, 0), z(0, 0), z(1, 0)]);
}

#[test]
fn a_gate_of_the_wrong_size_is_a_dimension_mismatch() {
    let mut circuit = mixed_session();
    let before = amplitudes(&circuit);
    assert_eq!(circuit.apply_gate(&hadamard_gate(1, 0).unwrap()), Err(SimError::DimensionMismatch));
    assert_eq!(circuit.apply_gate(&hadamard_gate(3, 0).unwrap()), Err(SimError::DimensionMismatch));
    assert_eq!(amplitudes(&circuit), before);
    assert_eq!(circuit.state().sqrt2_exp(), 6);
    assert_eq!(circuit.apply_gate(&identity_gate(2).unwrap()), Ok(()));
    assert_eq!(amplitudes(&circuit), before);
}

#[test]
fn the_fourier_transform_of_a_session_uses_the_fourier_gate() {
    let mut circuit = mixed_session();
    let mut expected = AmplitudeVector::from_parts(amplitudes(&circuit), 6).unwrap();
    expected.apply(&fourier_gate(2).unwrap()).unwrap();
    assert_eq!(circuit.fourier_transform(), Ok(()));
    assert_eq!(amplitudes(&circuit), vec![z(2, 3), z(-3, -10), z(0, 11), z(5, 4)]);
    assert_eq!(circuit.state().sqrt2_exp(), 8);
    assert_eq!(circuit.state().sqrt2_exp(), expected.sqrt2_exp());
}

#[test]
fn the_fourier_transform_of_a_large_session_is_refused() {
    let mut circuit = QuantumCircuit::new(3).unwrap();
    assert_eq!(circuit.fourier_transform(), Err(SimError::Unrepresentable));
    assert_eq!(circuit.state().len(), 8);
    assert_eq!(circuit.state().amplitude(0), z(1, 0));
    let mut single = QuantumCircuit::new(0).unwrap();
    assert_eq!(single.fourier_transform(), Ok(()));
    assert_eq!(amplitudes(&single), vec![z(1, 0)]);
}

#[test]
fn noise_of_probability_zero_never_changes_the_state() {
    let mut rng = StdRng::seed_from_u64(2024);
    let never = Probability::new(0, 1).unwrap();
    let mut circuit = mixed_session();
    let before = amplitudes(&circuit);
    for _ in 0..10_000 {
        circuit.inject_decoherence(&mut rng, never);
        assert_eq!(amplitudes(&circuit), before);
    }
    assert_eq!(circuit.state().sqrt2_exp(), 6);
}

#[test]
fn noise_of_probability_one_always_applies_pauli_z() {
    let mut rng = StdRng::seed_from_u64(2024);
    let always = Probability::new(7, 7).unwrap();
    let mut circuit = mixed_session();
    let plain = amplitudes(&circuit);
    let struck = vec![z(1, 2), z(3, 0), z(0, 5), z(-4, 4)];
    for round in 0..1_000 {
        circuit.inject_decoherence(&mut rng, always);
        if round % 2 == 0 {
            assert_eq!(amplitudes(&circuit), struck);
        } else {
            assert_eq!(amplitudes(&circuit), plain);
        }
    }
    let mut reference = mixed_session();
    reference.apply_gate(&pauli_z_gate(2, 0).unwrap()).unwrap();
    assert_eq!(amplitudes(&reference), struck);
}

#[test]
fn noise_strikes_only_when_told_to() {
    let mut circuit = mixed_session();
    let plain = amplitudes(&circuit);
    circuit.apply_noise(false);
    assert_eq!(amplitudes(&circuit), plain);
    circuit.apply_noise(true);
    assert_eq!(amplitudes(&circuit), vec![z(1, 2), z(3, 0), z(0, 5), z(-4, 4)]);
    let mut single = QuantumCircuit::new(0).unwrap();
    single.apply_noise(true);
    assert_eq!(amplitudes(&single), vec![z(1, 0)]);
}

#[test]
fn default_noise_strikes_about_once_in_a_hundred_trials() {
    let mut rng = StdRng::seed_from_u64(99);
    let mut circuit = mixed_session();
    let plain = amplitudes(&circuit);
    let struck = vec![z(1, 2), z(3, 0), z(0, 5), z(-4, 4)];
    let mut strikes = 0;
    let mut current = plain.clone();
    for _ in 0..20_000 {
        circuit.decohere(&mut rng);
        let now = amplitudes(&circuit);
        assert!(now == plain || now == struck);
        if now != current {
            strikes += 1;
            current = now;
        }
    }
    assert!(strikes > 100 && strikes < 300);
}

#[test]
fn probabilities_lie_between_zero_and_one() {
    assert!(Probability::new(1, 0).is_none());
    assert!(Probability::new(0, 0).is_none());
    assert!(Probability::new(3, 2).is_none());
    let p = Probability::new(1, 4).unwrap();
    assert_eq!((p.numerator(), p.denominator()), (1, 4));
    let q = Probability::one_percent();
    assert_eq!((q.numerator(), q.denominator()), (1, 100));
    assert!(Probability::new(u32::MAX, u32::MAX).is_some());
}

#[test]
fn the_norm_check_of_a_session_reports_drift() {
    let mut circuit = QuantumCircuit::new(1).unwrap();
    let doubling = qsim::gate::Gate::from_rows(
        vec![vec![z(2, 0), z(0, 0)], vec![z(0, 0), z(2, 0)]],
        0,
    )
    .unwrap();
    assert_eq!(circuit.check_norm(), Ok(()));
    assert_eq!(circuit.apply_gate(&doubling), Ok(()));
    assert_eq!(circuit.check_norm(), Err(SimError::NumericalDrift));
}

#[test]
fn basis_indices_are_read_bit_by_bit() {
    assert_eq!(dimension(0), 1);
    assert_eq!(dimension(2), 4);
    assert_eq!(dimension(10), 1024);
    assert!(bit_is_set(5, 0));
    assert!(!bit_is_set(5, 1));
    assert!(bit_is_set(5, 2));
    assert_eq!(with_bit_flipped(5, 1), 7);
    assert_eq!(with_bit_flipped(5, 0), 4);
    assert_eq!(with_bit_flipped(0, 9), 512);
}

#[test]
fn a_session_comes_back_from_the_fourier_transform_and_its_inverse() {
    let state =
        AmplitudeVector::from_parts(vec![z(1, 2), z(-3, 0), z(0, 5), z(4, -4)], 1).unwrap();
    let mut circuit = QuantumCircuit::with_state(2, state).unwrap();
    let before = amplitudes(&circuit);
    assert_eq!(circuit.fourier_transform(), Ok(()));
    assert_ne!(amplitudes(&circuit), before);
    assert_eq!(circuit.inverse_fourier_transform(), Ok(()));
    assert_eq!(amplitudes(&circuit), vec![z(4, 8), z(-12, 0), z(0, 20), z(16, -16)]);
    assert_eq!(circuit.state().sqrt2_exp(), 5);
    circuit.reduce();
    assert_eq!(amplitudes(&circuit), before);
    assert_eq!(circuit.state().sqrt2_exp(), 1);
    assert_eq!(circuit.num_qubits(), 2);
}

#[test]
fn the_inverse_fourier_transform_of_a_large_session_is_refused() {
    let mut circuit = QuantumCircuit::new(4).unwrap();
    assert_eq!(circuit.inverse_fourier_transform(), Err(SimError::Unrepresentable));
    assert_eq!(circuit.state().amplitude(0), z(1, 0));
}

#[test]
fn the_inverse_transform_of_a_uniform_state_is_the_first_basis_state() {
    let mut circuit = QuantumCircuit::new(2).unwrap();
    assert_eq!(circuit.apply_gate(&hadamard_gate(2, 0).unwrap()), Ok(()));
    assert_eq!(circuit.apply_gate(&hadamard_gate(2, 1).unwrap()), Ok(()));
    assert_eq!(amplitudes(&circuit), vec![z(1, 0); 4]);
    assert_eq!(circuit.inverse_fourier_transform(), Ok(()));
    circuit.reduce();
    assert_eq!(amplitudes(&circuit), vec![z(1, 0), z(0, 0), z(0, 0), z(0, 0)]);
    assert_eq!(circuit.state().sqrt2_exp(), 0);
}

#[test]
fn a_session_takes_its_sixty_first_hadamard() {
    let h = hadamard_gate(2, 0).unwrap();
    let mut circuit = QuantumCircuit::new(2).unwrap();
    for _ in 0..61 {
        assert_eq!(circuit.apply_gate(&h), Ok(()));
    }
    assert_eq!(amplitudes(&circuit), vec![z(1, 0), z(1, 0), z(0, 0), z(0, 0)]);
    assert_eq!(circuit.state().sqrt2_exp(), 1);
    assert_eq!(circuit.check_norm(), Ok(()));
}

#[test]
fn a_deep_session_comes_back_from_the_fourier_transform() {
    let deep =
        AmplitudeVector::from_parts(vec![z(1 << 29, 0), z(0, 0), z(0, 0), z(0, 0)], 58).unwrap();
    let mut circuit = QuantumCircuit::with_state(2, deep).unwrap();
    assert_eq!(circuit.fourier_transform(), Ok(()));
    assert_eq!(circuit.inverse_fourier_transform(), Ok(()));
    assert_eq!(amplitudes(&circuit), vec![z(1, 0), z(0, 0), z(0, 0), z(0, 0)]);
    assert_eq!(circuit.state().sqrt2_exp(), 0);
    for _ in 0..40 {
        assert_eq!(circuit.fourier_transform(), Ok(()));
        assert_eq!(circuit.inverse_fourier_transform(), Ok(()));
    }
    circuit.reduce();
    assert_eq!(amplitudes(&circuit), vec![z(1, 0), z(0, 0), z(0, 0), z(0, 0)]);
    assert_eq!(circuit.state().sqrt2_exp(), 0);
}
