use qsim::complex::Gaussian;
use qsim::error::SimError;
use qsim::gate::Gate;
use qsim::fourier::fourier_phase;
use qsim::library::{
    cnot_gate, fourier_gate, hadamard_gate, identity_gate, pauli_x_gate, pauli_z_gate,
};
use qsim::state::AmplitudeVector;

fn g(re: i64, im: i64) -> Gaussian {
    Gaussian::new(re, im)
}

fn reals(values: &[i64]) -> Vec<Gaussian> {
    values.iter().map(|&v| g(v, 0)).collect()
}

fn rows_of(gate: &Gate) -> Vec<Vec<Gaussian>> {
    let n = gate.dim();
    (0..n).map(|i| (0..n).map(|j| gate.entry(i, j)).collect()).collect()
}

fn amps_of(v: &AmplitudeVector) -> Vec<Gaussian> {
    (0..v.len()).map(|i| v.amplitude(i)).collect()
}

#[test]
fn hadamard_on_two_qubits_has_the_block_form() {
    let h = hadamard_gate(2, 0).unwrap();
    assert_eq!(h.dim(), 4);
    assert_eq!(h.sqrt2_exp(), 1);
    assert_eq!(
        rows_of(&h),
        vec![
            reals(&[1, 1, 0, 0]),
            reals(&[1, -1, 0, 0]),
            reals(&[0, 0, 1, 1]),
            reals(&[0, 0, 1, -1]),
        ]
    );
}

#[test]
fn cnot_on_two_qubits_swaps_the_last_two_basis_states() {
    let c = cnot_gate(2, 1, 0).unwrap();
    assert_eq!(c.sqrt2_exp(), 0);
    assert_eq!(
        rows_of(&c),
        vec![
            reals(&[1, 0, 0, 0]),
            reals(&[0, 1, 0, 0]),
            reals(&[0, 0, 0, 1]),
            reals(&[0, 0, 1, 0]),
        ]
    );
}

#[test]
fn pauli_z_on_two_qubits_is_diagonal_with_alternating_signs() {
    let z = pauli_z_gate(2, 0).unwrap();
    assert_eq!(
        rows_of(&z),
        vec![
            reals(&[1, 0, 0, 0]),
            reals(&[0, -1, 0, 0]),
            reals(&[0, 0, 1, 0]),
            reals(&[0, 0, 0, -1]),
        ]
    );
}

#[test]
fn pauli_x_flips_the_target_qubit_of_every_basis_state() {
    let x = pauli_x_gate(2, 0).unwrap();
    assert_eq!(
        rows_of(&x),
        vec![
            reals(&[0, 1, 0, 0]),
            reals(&[1, 0, 0, 0]),
            reals(&[0, 0, 0, 1]),
            reals(&[0, 0, 1, 0]),
        ]
    );
    let x1 = pauli_x_gate(2, 1).unwrap();
    assert_eq!(
        rows_of(&x1),
        vec![
            reals(&[0, 0, 1, 0]),
            reals(&[0, 0, 0, 1]),
            reals(&[1, 0, 0, 0]),
            reals(&[0, 1, 0, 0]),
        ]
    );
}

#[test]
fn builders_refuse_qubits_the_register_does_not_have() {
    assert!(hadamard_gate(2, 2).is_none());
    assert!(pauli_x_gate(0, 0).is_none());
    assert!(pauli_z_gate(11, 0).is_none());
    assert!(cnot_gate(2, 1, 1).is_none());
    assert!(cnot_gate(2, 2, 0).is_none());
    assert!(identity_gate(11).is_none());
    assert!(identity_gate(0).is_some());
}

#[test]
fn applying_a_gate_multiplies_matrix_and_vector() {
    let gate = Gate::from_rows(vec![vec![g(1, 2), g(0, -1)], vec![g(3, 0), g(2, 2)]], 3).unwrap();
    let mut v = AmplitudeVector::from_parts(vec![g(1, 1), g(0, 4)], 2).unwrap();
    assert_eq!(v.apply(&gate), Ok(()));
    // (1+2i)(1+i) + (-i)(4i) = (-1+3i) + 4 = 3+3i
    // 3(1+i) + (2+2i)(4i) = (3+3i) + (-8+8i) = -5+11i
    assert_eq!(amps_of(&v), vec![g(3, 3), g(-5, 11)]);
    assert_eq!(v.sqrt2_exp(), 5);
}

#[test]
fn applying_a_gate_of_another_dimension_is_a_mismatch() {
    let h = hadamard_gate(1, 0).unwrap();
    let mut v = AmplitudeVector::basis(4, 0).unwrap();
    assert_eq!(v.apply(&h), Err(SimError::DimensionMismatch));
    assert_eq!(amps_of(&v), reals(&[1, 0, 0, 0]));
    assert_eq!(v.sqrt2_exp(), 0);
}

#[test]
fn fourier_gate_on_two_qubits_holds_the_powers_of_i() {
    let f = fourier_gate(2).unwrap();
    assert_eq!(f.dim(), 4);
    assert_eq!(f.sqrt2_exp(), 2);
    assert_eq!(
        rows_of(&f),
        vec![
            vec![g(1, 0), g(1, 0), g(1, 0), g(1, 0)],
            vec![g(1, 0), g(0, 1), g(-1, 0), g(0, -1)],
            vec![g(1, 0), g(-1, 0), g(1, 0), g(-1, 0)],
            vec![g(1, 0), g(0, -1), g(-1, 0), g(0, 1)],
        ]
    );
}

#[test]
fn fourier_gate_on_one_qubit_is_the_hadamard_gate() {
    let f = fourier_gate(1).unwrap();
    let h = hadamard_gate(1, 0).unwrap();
    assert_eq!(rows_of(&f), rows_of(&h));
    assert_eq!(f.sqrt2_exp(), h.sqrt2_exp());
}

#[test]
fn fourier_gate_on_no_qubit_is_the_one_by_one_identity() {
    let f = fourier_gate(0).unwrap();
    assert_eq!(rows_of(&f), vec![vec![g(1, 0)]]);
    assert_eq!(f.sqrt2_exp(), 0);
    let mut v = AmplitudeVector::from_parts(vec![g(3, -2)], 1).unwrap();
    assert_eq!(v.apply(&f), Ok(()));
    assert_eq!(amps_of(&v), vec![g(3, -2)]);
    assert_eq!(v.sqrt2_exp(), 1);
}

#[test]
fn fourier_gate_beyond_two_qubits_has_no_exact_entries() {
    assert!(fourier_gate(3).is_none());
    assert!(fourier_gate(10).is_none());
}

#[test]
fn fourier_phase_reduces_the_product_of_the_indices() {
    assert_eq!(fourier_phase(8, 3, 5), 7);
    assert_eq!(fourier_phase(4, 3, 3), 1);
    assert_eq!(fourier_phase(1, 0, 0), 0);
    assert_eq!(fourier_phase(6, 5, 5), 1);
    assert_eq!(fourier_phase(1024, 1023, 1023), 1);
    assert_eq!(fourier_phase(16, 0, 9), 0);
}

#[test]
fn adjoint_transposes_and_conjugates() {
    let gate = Gate::from_rows(vec![vec![g(1, 2), g(0, -1)], vec![g(3, 0), g(2, 2)]], 3).unwrap();
    let adj = gate.adjoint();
    assert_eq!(rows_of(&adj), vec![vec![g(1, -2), g(3, 0)], vec![g(0, 1), g(2, -2)]]);
    assert_eq!(adj.sqrt2_exp(), 3);
    let f = fourier_gate(2).unwrap().adjoint();
    assert_eq!(
        rows_of(&f),
        vec![
            vec![g(1, 0), g(1, 0), g(1, 0), g(1, 0)],
            vec![g(1, 0), g(0, -1), g(-1, 0), g(0, 1)],
            vec![g(1, 0), g(-1, 0), g(1, 0), g(-1, 0)],
            vec![g(1, 0), g(0, 1), g(-1, 0), g(0, -1)],
        ]
    );
}

#[test]
fn every_library_gate_is_unitary_on_every_small_register() {
    for q in 0..=5u32 {
        assert!(identity_gate(q).unwrap().is_unitary());
        for t in 0..q {
            assert!(hadamard_gate(q, t).unwrap().is_unitary());
            assert!(pauli_x_gate(q, t).unwrap().is_unitary());
            assert!(pauli_z_gate(q, t).unwrap().is_unitary());
            for c in 0..q {
                if c != t {
                    assert!(cnot_gate(q, c, t).unwrap().is_unitary());
                }
            }
        }
    }
    for q in 0..=2u32 {
        let f = fourier_gate(q).unwrap();
        assert!(f.is_unitary());
        assert!(f.adjoint().is_unitary());
    }
}

#[test]
fn gates_that_are_not_unitary_are_told_apart() {
    let doubled = Gate::from_rows(vec![vec![g(2, 0), g(0, 0)], vec![g(0, 0), g(2, 0)]], 0).unwrap();
    assert!(!doubled.is_unitary());
    let rescaled = Gate::from_rows(vec![vec![g(2, 0), g(0, 0)], vec![g(0, 0), g(2, 0)]], 2).unwrap();
    assert!(rescaled.is_unitary());
    let skewed = Gate::from_rows(vec![vec![g(1, 0), g(1, 0)], vec![g(0, 0), g(1, 0)]], 0).unwrap();
    assert!(!skewed.is_unitary());
    let phase = Gate::from_rows(vec![vec![g(1, 0), g(0, 0)], vec![g(0, 0), g(0, 1)]], 0).unwrap();
    assert!(phase.is_unitary());
    let unscaled_hadamard =
        Gate::from_rows(vec![vec![g(1, 0), g(1, 0)], vec![g(1, 0), g(-1, 0)]], 0).unwrap();
    assert!(!unscaled_hadamard.is_unitary());
}

#[test]
fn from_rows_accepts_square_matrices_within_the_limits_only() {
    assert!(Gate::from_rows(vec![], 0).is_none());
    assert!(Gate::from_rows(vec![vec![g(1, 0), g(0, 0)]], 0).is_none());
    assert!(Gate::from_rows(vec![vec![g(1, 0)], vec![g(0, 0)]], 0).is_none());
    assert!(Gate::from_rows(vec![vec![g(1, 0)]], 61).is_none());
    assert!(Gate::from_rows(vec![vec![g(1, 0)]], 60).is_some());
    assert!(Gate::from_rows(vec![vec![g(1 << 30, -(1 << 30))]], 0).is_some());
    assert!(Gate::from_rows(vec![vec![g((1 << 30) + 1, 0)]], 0).is_none());
    assert!(Gate::from_rows(vec![vec![g(0, -(1 << 30) - 1)]], 0).is_none());
}

#[test]
fn a_product_beyond_the_limits_is_refused_and_leaves_the_vector() {
    let big = Gate::from_rows(vec![vec![g(1 << 30, 0)]], 0).unwrap();
    let mut v = AmplitudeVector::from_parts(vec![g(2, 0)], 0).unwrap();
    assert_eq!(v.apply(&big), Err(SimError::Unrepresentable));
    assert_eq!(amps_of(&v), vec![g(2, 0)]);
    let mut one = AmplitudeVector::from_parts(vec![g(1, 0)], 0).unwrap();
    assert_eq!(one.apply(&big), Ok(()));
    assert_eq!(amps_of(&one), vec![g(1 << 30, 0)]);

    let deep = Gate::from_rows(vec![vec![g(1, 0)]], 60).unwrap();
    let mut w = AmplitudeVector::from_parts(vec![g(1, 0)], 1).unwrap();
    assert_eq!(w.apply(&deep), Err(SimError::Unrepresentable));
    assert_eq!(w.sqrt2_exp(), 1);
    let mut z = AmplitudeVector::from_parts(vec![g(1, 0)], 0).unwrap();
    assert_eq!(z.apply(&deep), Ok(()));
    assert_eq!(z.sqrt2_exp(), 60);
}

#[test]
fn a_mismatch_is_reported_before_an_overflow() {
    let big = Gate::from_rows(vec![vec![g(1 << 30, 0)]], 60).unwrap();
    let mut v = AmplitudeVector::from_parts(vec![g(2, 0), g(2, 0)], 60).unwrap();
    assert_eq!(v.apply(&big), Err(SimError::DimensionMismatch));
}
