use qsim::complex::Gaussian;
use qsim::error::SimError;
use qsim::library::{cnot_gate, fourier_gate, hadamard_gate, pauli_x_gate, pauli_z_gate};
use qsim::state::AmplitudeVector;

fn c(re: i64, im: i64) -> Gaussian {
    Gaussian::new(re, im)
}

fn numerators(v: &AmplitudeVector) -> Vec<Gaussian> {
    (0..v.len()).map(|i| v.amplitude(i)).collect()
}

fn sample_state() -> AmplitudeVector {
    AmplitudeVector::from_parts(vec![c(1, 2), c(0, 0), c(3, 0), c(0, -1)], 0).unwrap()
}

#[test]
fn from_parts_accepts_vectors_within_the_limits_only() {
    assert!(AmplitudeVector::from_parts(vec![], 0).is_none());
    assert!(AmplitudeVector::from_parts(vec![c(0, 0)], 0).is_some());
    assert!(AmplitudeVector::from_parts(vec![c(1, 0)], 61).is_none());
    assert!(AmplitudeVector::from_parts(vec![c(1, 0), c(1 << 30, 0)], 60).is_some());
    assert!(AmplitudeVector::from_parts(vec![c(1, 0), c((1 << 30) + 1, 0)], 0).is_none());
    let v = AmplitudeVector::from_parts(vec![c(1, -1), c(2, 5), c(0, 0)], 7).unwrap();
    assert_eq!(v.len(), 3);
    assert_eq!(v.sqrt2_exp(), 7);
    assert_eq!(numerators(&v), vec![c(1, -1), c(2, 5), c(0, 0)]);
}

#[test]
fn basis_states_have_a_single_one() {
    let v = AmplitudeVector::basis(4, 2).unwrap();
    assert_eq!(numerators(&v), vec![c(0, 0), c(0, 0), c(1, 0), c(0, 0)]);
    assert_eq!(v.sqrt2_exp(), 0);
    assert!(AmplitudeVector::basis(4, 4).is_none());
    assert!(AmplitudeVector::basis(0, 0).is_none());
    assert_eq!(numerators(&AmplitudeVector::basis(1, 0).unwrap()), vec![c(1, 0)]);
}

#[test]
fn weights_are_squared_magnitudes() {
    let v = AmplitudeVector::from_parts(vec![c(3, -4), c(0, 0), c(1, 1)], 5).unwrap();
    assert_eq!(v.weight(0), 25);
    assert_eq!(v.weight(1), 0);
    assert_eq!(v.weight(2), 2);
    assert_eq!(v.total_weight(), 27);
    let top = AmplitudeVector::from_parts(vec![c(1 << 30, -(1 << 30))], 0).unwrap();
    assert_eq!(top.weight(0), 1 << 61);
    assert_eq!(c(3, -4).norm_sq(), 25);
    assert_eq!(c(3, -4).conj(), c(3, 4));
    assert_eq!(c(1, 2).times(&c(3, -1)), (5, 5));
}

#[test]
fn the_norm_check_tells_normalized_vectors_from_the_others() {
    assert_eq!(AmplitudeVector::basis(4, 1).unwrap().check_norm(), Ok(()));
    let split = AmplitudeVector::from_parts(vec![c(1, 0), c(0, 1)], 1).unwrap();
    assert!(split.is_normalized());
    assert_eq!(split.check_norm(), Ok(()));
    let heavy = AmplitudeVector::from_parts(vec![c(1, 0), c(1, 0)], 0).unwrap();
    assert!(!heavy.is_normalized());
    assert_eq!(heavy.check_norm(), Err(SimError::NumericalDrift));
    let light = AmplitudeVector::from_parts(vec![c(1, 0), c(1, 0)], 2).unwrap();
    assert_eq!(light.check_norm(), Err(SimError::NumericalDrift));
    let empty = AmplitudeVector::from_parts(vec![c(0, 0), c(0, 0)], 0).unwrap();
    assert_eq!(empty.check_norm(), Err(SimError::NumericalDrift));
}

#[test]
fn hadamard_splits_the_first_basis_state_evenly() {
    let mut v = AmplitudeVector::basis(4, 0).unwrap();
    assert_eq!(v.apply(&hadamard_gate(2, 0).unwrap()), Ok(()));
    assert_eq!(numerators(&v), vec![c(1, 0), c(1, 0), c(0, 0), c(0, 0)]);
    assert_eq!(v.sqrt2_exp(), 1);
    assert_eq!(v.check_norm(), Ok(()));
}

#[test]
fn unitary_gates_keep_the_total_probability() {
    let mut v = AmplitudeVector::basis(8, 5).unwrap();
    let gates = vec![
        hadamard_gate(3, 0).unwrap(),
        cnot_gate(3, 0, 2).unwrap(),
        hadamard_gate(3, 1).unwrap(),
        pauli_z_gate(3, 1).unwrap(),
        hadamard_gate(3, 2).unwrap(),
        pauli_x_gate(3, 0).unwrap(),
        hadamard_gate(3, 0).unwrap(),
    ];
    for gate in gates.iter() {
        let before = v.total_weight();
        let exp_before = v.sqrt2_exp();
        assert_eq!(v.apply(gate), Ok(()));
        assert_eq!(v.total_weight(), before << gate.sqrt2_exp());
        assert_eq!(v.sqrt2_exp(), exp_before + gate.sqrt2_exp());
        assert_eq!(v.check_norm(), Ok(()));
    }
    assert_eq!(v.sqrt2_exp(), 4);
    assert_eq!(v.total_weight(), 16);
}

#[test]
fn pauli_x_twice_gives_the_state_back() {
    for q in 1..=3u32 {
        for t in 0..q {
            let n = 1usize << q;
            let amps: Vec<Gaussian> =
                (0..n).map(|i| c(i as i64 * 7 - 3, 11 - (i as i64) * (i as i64))).collect();
            let mut v = AmplitudeVector::from_parts(amps.clone(), 3).unwrap();
            let x = pauli_x_gate(q, t).unwrap();
            assert_eq!(v.apply(&x), Ok(()));
            assert_ne!(numerators(&v), amps);
            assert_eq!(v.apply(&x), Ok(()));
            assert_eq!(numerators(&v), amps);
            assert_eq!(v.sqrt2_exp(), 3);
        }
    }
}

#[test]
fn pauli_z_twice_gives_the_state_back() {
    for q in 1..=3u32 {
        for t in 0..q {
            let n = 1usize << q;
            let amps: Vec<Gaussian> =
                (0..n).map(|i| c(5 - 2 * (i as i64), (i as i64) + 1)).collect();
            let mut v = AmplitudeVector::from_parts(amps.clone(), 0).unwrap();
            let z = pauli_z_gate(q, t).unwrap();
            assert_eq!(v.apply(&z), Ok(()));
            assert_ne!(numerators(&v), amps);
            assert_eq!(v.apply(&z), Ok(()));
            assert_eq!(numerators(&v), amps);
            assert_eq!(v.sqrt2_exp(), 0);
        }
    }
}

#[test]
fn pauli_gates_work_at_the_storage_limit() {
    let amps = vec![c(1 << 30, -(1 << 30)), c(-(1 << 30), 1 << 30)];
    let mut v = AmplitudeVector::from_parts(amps, 60).unwrap();
    assert_eq!(v.apply(&pauli_z_gate(1, 0).unwrap()), Ok(()));
    assert_eq!(numerators(&v), vec![c(1 << 30, -(1 << 30)), c(1 << 30, -(1 << 30))]);
    assert_eq!(v.apply(&pauli_x_gate(1, 0).unwrap()), Ok(()));
    assert_eq!(v.sqrt2_exp(), 60);
}

#[test]
fn pauli_z_negates_where_the_target_qubit_is_one() {
    let mut v = sample_state();
    assert_eq!(v.apply(&pauli_z_gate(2, 1).unwrap()), Ok(()));
    assert_eq!(numerators(&v), vec![c(1, 2), c(0, 0), c(-3, 0), c(0, 1)]);
}

#[test]
fn cnot_swaps_where_the_control_qubit_is_one() {
    let mut v = sample_state();
    assert_eq!(v.apply(&cnot_gate(2, 1, 0).unwrap()), Ok(()));
    assert_eq!(numerators(&v), vec![c(1, 2), c(0, 0), c(0, -1), c(3, 0)]);
    let mut w = sample_state();
    assert_eq!(w.apply(&cnot_gate(2, 0, 1).unwrap()), Ok(()));
    assert_eq!(numerators(&w), vec![c(1, 2), c(0, -1), c(3, 0), c(0, 0)]);
}

#[test]
fn fourier_of_the_first_basis_state_is_uniform() {
    for q in 0..=2u32 {
        let n = 1usize << q;
        let mut v = AmplitudeVector::basis(n, 0).unwrap();
        assert_eq!(v.apply(&fourier_gate(q).unwrap()), Ok(()));
        assert_eq!(numerators(&v), vec![c(1, 0); n]);
        assert_eq!(v.sqrt2_exp(), q);
        for i in 0..n {
            let magnitude = (v.weight(i) as f64 / (1u64 << v.sqrt2_exp()) as f64).sqrt();
            assert!((magnitude - 1.0 / (n as f64).sqrt()).abs() < 1e-12);
        }
    }
}

#[test]
fn fourier_of_the_second_basis_state_winds_once() {
    let mut v = AmplitudeVector::basis(4, 1).unwrap();
    assert_eq!(v.apply(&fourier_gate(2).unwrap()), Ok(()));
    assert_eq!(numerators(&v), vec![c(1, 0), c(0, 1), c(-1, 0), c(0, -1)]);
    assert_eq!(v.sqrt2_exp(), 2);
}

#[test]
fn fourier_and_its_inverse_restore_the_state() {
    let f = fourier_gate(2).unwrap();
    let inverse = f.adjoint();
    let mut v = sample_state();
    assert_eq!(v.apply(&f), Ok(()));
    assert_eq!(numerators(&v), vec![c(4, 1), c(-3, 2), c(4, 3), c(-1, 2)]);
    assert_eq!(v.sqrt2_exp(), 2);
    assert_eq!(v.apply(&inverse), Ok(()));
    assert_eq!(numerators(&v), vec![c(4, 8), c(0, 0), c(12, 0), c(0, -4)]);
    assert_eq!(v.sqrt2_exp(), 4);
    v.reduce();
    assert_eq!(numerators(&v), numerators(&sample_state()));
    assert_eq!(v.sqrt2_exp(), 0);
}

#[test]
fn reduce_takes_out_common_factors_of_two() {
    let mut v = AmplitudeVector::from_parts(vec![c(8, -4), c(0, 12)], 5).unwrap();
    v.reduce();
    assert_eq!(numerators(&v), vec![c(2, -1), c(0, 3)]);
    assert_eq!(v.sqrt2_exp(), 1);
    let mut odd = AmplitudeVector::from_parts(vec![c(8, -4), c(1, 12)], 5).unwrap();
    odd.reduce();
    assert_eq!(numerators(&odd), vec![c(8, -4), c(1, 12)]);
    assert_eq!(odd.sqrt2_exp(), 5);
    let mut shallow = AmplitudeVector::from_parts(vec![c(4, 0)], 1).unwrap();
    shallow.reduce();
    assert_eq!(numerators(&shallow), vec![c(4, 0)]);
    assert_eq!(shallow.sqrt2_exp(), 1);
    let mut zero = AmplitudeVector::from_parts(vec![c(0, 0), c(0, 0)], 7).unwrap();
    zero.reduce();
    assert_eq!(zero.sqrt2_exp(), 1);
    let mut negative = AmplitudeVector::from_parts(vec![c(-6, -2)], 2).unwrap();
    negative.reduce();
    assert_eq!(numerators(&negative), vec![c(-3, -1)]);
    assert_eq!(negative.sqrt2_exp(), 0);
}

#[test]
fn two_hadamards_are_the_identity_after_reducing() {
    let h = hadamard_gate(2, 1).unwrap();
    let mut v = sample_state();
    assert_eq!(v.apply(&h), Ok(()));
    assert_eq!(v.apply(&h), Ok(()));
    assert_eq!(v.sqrt2_exp(), 2);
    v.reduce();
    assert_eq!(numerators(&v), numerators(&sample_state()));
    assert_eq!(v.sqrt2_exp(), 0);
}

#[test]
fn a_product_beyond_the_limits_is_stored_in_its_reduced_form() {
    let h = hadamard_gate(2, 0).unwrap();
    let mut v = AmplitudeVector::basis(4, 0).unwrap();
    for _ in 0..60 {
        assert_eq!(v.apply(&h), Ok(()));
    }
    assert_eq!(numerators(&v), vec![c(1 << 30, 0), c(0, 0), c(0, 0), c(0, 0)]);
    assert_eq!(v.sqrt2_exp(), 60);
    assert_eq!(v.check_norm(), Ok(()));
    assert_eq!(v.apply(&h), Ok(()));
    assert_eq!(numerators(&v), vec![c(1, 0), c(1, 0), c(0, 0), c(0, 0)]);
    assert_eq!(v.sqrt2_exp(), 1);
    assert_eq!(v.check_norm(), Ok(()));
}

#[test]
fn a_deep_state_takes_a_gate_that_its_reduced_form_can_hold() {
    let start = AmplitudeVector::from_parts(vec![c(1 << 30, 0), c(0, 0), c(0, 0), c(0, 0)], 60);
    let mut v = start.unwrap();
    assert_eq!(v.apply(&hadamard_gate(2, 0).unwrap()), Ok(()));
    assert_eq!(numerators(&v), vec![c(1, 0), c(1, 0), c(0, 0), c(0, 0)]);
    assert_eq!(v.sqrt2_exp(), 1);
    // an odd numerator keeps the exponent where it is
    let mut odd = AmplitudeVector::from_parts(vec![c(3, 0), c(4, 0)], 60).unwrap();
    assert_eq!(odd.apply(&hadamard_gate(1, 0).unwrap()), Err(SimError::Unrepresentable));
    assert_eq!(numerators(&odd), vec![c(3, 0), c(4, 0)]);
    assert_eq!(odd.sqrt2_exp(), 60);
    // two hadamards on it would fit again, but the first does not
    let mut even = AmplitudeVector::from_parts(vec![c(6, 2), c(4, -2)], 60).unwrap();
    assert_eq!(even.apply(&hadamard_gate(1, 0).unwrap()), Ok(()));
    assert_eq!(numerators(&even), vec![c(5, 0), c(1, 2)]);
    assert_eq!(even.sqrt2_exp(), 59);
}

#[test]
fn a_large_product_is_halved_until_it_fits() {
    let top = 1i64 << 30;
    let doubling =
        qsim::gate::Gate::from_rows(vec![vec![c(2, 0), c(0, 0)], vec![c(0, 0), c(2, 0)]], 2)
            .unwrap();
    let mut v = AmplitudeVector::from_parts(vec![c(top, -top), c(0, top)], 7).unwrap();
    assert_eq!(v.apply(&doubling), Ok(()));
    // 2^31 over (√2)^9 does not fit; four halvings use the exponent up
    assert_eq!(numerators(&v), vec![c(1 << 27, -(1 << 27)), c(0, 1 << 27)]);
    assert_eq!(v.sqrt2_exp(), 1);
    let unpaid =
        qsim::gate::Gate::from_rows(vec![vec![c(2, 0), c(0, 0)], vec![c(0, 0), c(2, 0)]], 0)
            .unwrap();
    let mut w = AmplitudeVector::from_parts(vec![c(top, -top), c(0, top)], 1).unwrap();
    assert_eq!(w.apply(&unpaid), Err(SimError::Unrepresentable));
    assert_eq!(numerators(&w), vec![c(top, -top), c(0, top)]);
    assert_eq!(w.sqrt2_exp(), 1);
}

#[test]
fn the_fourier_round_trip_works_on_a_deep_state() {
    let f = fourier_gate(2).unwrap();
    let inverse = f.adjoint();
    let deep = AmplitudeVector::from_parts(vec![c(1 << 29, 0), c(0, 0), c(0, 0), c(0, 0)], 58);
    let mut v = deep.unwrap();
    assert_eq!(v.apply(&f), Ok(()));
    assert_eq!(numerators(&v), vec![c(1 << 29, 0); 4]);
    assert_eq!(v.sqrt2_exp(), 60);
    assert_eq!(v.apply(&inverse), Ok(()));
    assert_eq!(numerators(&v), vec![c(1, 0), c(0, 0), c(0, 0), c(0, 0)]);
    assert_eq!(v.sqrt2_exp(), 0);
    let mut reference = AmplitudeVector::from_parts(
        vec![c(1 << 29, 0), c(0, 0), c(0, 0), c(0, 0)],
        58,
    )
    .unwrap();
    reference.reduce();
    assert_eq!(numerators(&v), numerators(&reference));
    assert_eq!(v.sqrt2_exp(), reference.sqrt2_exp());
}

#[test]
fn a_long_circuit_never_runs_out_of_room() {
    let gates = vec![
        hadamard_gate(3, 0).unwrap(),
        cnot_gate(3, 0, 1).unwrap(),
        hadamard_gate(3, 2).unwrap(),
        pauli_z_gate(3, 2).unwrap(),
        hadamard_gate(3, 1).unwrap(),
        cnot_gate(3, 2, 0).unwrap(),
        pauli_x_gate(3, 1).unwrap(),
    ];
    let mut v = AmplitudeVector::basis(8, 0).unwrap();
    for round in 0..2_000 {
        let gate = &gates[round % gates.len()];
        assert_eq!(v.apply(gate), Ok(()));
        assert_eq!(v.check_norm(), Ok(()));
        assert!(v.sqrt2_exp() <= 60);
    }
}
