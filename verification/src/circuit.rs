//! A simulation session: a register of qubits with its amplitude vector.

use vstd::prelude::*;
use vstd::arithmetic::power2::pow2;
use crate::error::SimError;
use crate::fourier::{MAX_FOURIER_QUBITS, fourier_model};
use crate::gate::Gate;
use crate::library::fourier_gate;
use crate::measure::{MeasurementOutcome, DRAW_RANGE};
use crate::qubits::{MAX_QUBITS, dimension};
use crate::state::{AmplitudeVector, StateModel, apply_model, apply_outcome};

verus! {

/// What the Fourier transform of a register of `num_qubits` in state `v`
/// returns.
pub open spec fn fourier_outcome(num_qubits: nat, v: StateModel) -> Result<(), SimError> {
    if num_qubits > MAX_FOURIER_QUBITS {
        Err(SimError::Unrepresentable)
    } else {
        apply_outcome(fourier_model(num_qubits), v)
    }
}

/// What the inverse Fourier transform of a register of `num_qubits` in
/// state `v` returns.
pub open spec fn inverse_fourier_outcome(num_qubits: nat, v: StateModel) -> Result<(), SimError> {
    if num_qubits > MAX_FOURIER_QUBITS {
        Err(SimError::Unrepresentable)
    } else {
        apply_outcome(fourier_model(num_qubits).adjoint(), v)
    }
}

/// A register of qubits and its state. The state is owned by the session
/// and changed only through its operations.
pub struct QuantumCircuit {
    num_qubits: u32,
    state: AmplitudeVector,
}

impl View for QuantumCircuit {
    type V = StateModel;

    closed spec fn view(&self) -> StateModel {
        self.state@
    }
}

impl QuantumCircuit {
    /// The number of qubits of the register.
    pub closed spec fn qubits(&self) -> nat {
        self.num_qubits as nat
    }

    /// The register is of a supported size and its vector has one
    /// amplitude for each basis state.
    pub open spec fn wf(&self) -> bool {
        &&& self.qubits() <= MAX_QUBITS
        &&& self@.wf()
        &&& self@.len() == pow2(self.qubits())
    }

    /// Starts a session on `num_qubits` qubits, all zero: amplitude one at
    /// basis state zero. Returns `None` when the register would be larger
    /// than `MAX_QUBITS`.
    pub fn new(num_qubits: u32) -> (r: Option<QuantumCircuit>)
        ensures
            r is Some <==> num_qubits <= MAX_QUBITS,
            r matches Some(c) ==> c.wf() && c.qubits() == num_qubits && c@ == StateModel::basis(
                pow2(num_qubits as nat),
                0,
            ),
    {
        if num_qubits > MAX_QUBITS {
            return None;
        }
        let n = dimension(num_qubits);
        match AmplitudeVector::basis(n, 0) {
            Some(state) => Some(QuantumCircuit { num_qubits, state }),
            None => None,
        }
    }

    /// Starts a session on `num_qubits` qubits in a given state. Returns
    /// `None` when the register would be larger than `MAX_QUBITS` or the
    /// vector does not have `2^num_qubits` amplitudes.
    pub fn with_state(num_qubits: u32, state: AmplitudeVector) -> (r: Option<QuantumCircuit>)
        requires
            state.wf(),
        ensures
            r is Some <==> num_qubits <= MAX_QUBITS && state@.len() == pow2(num_qubits as nat),
            r matches Some(c) ==> c.wf() && c.qubits() == num_qubits && c@ == state@,
    {
        if num_qubits > MAX_QUBITS {
            return None;
        }
        if state.len() != dimension(num_qubits) {
            return None;
        }
        Some(QuantumCircuit { num_qubits, state })
    }

    /// The number of qubits of the register.
    pub fn num_qubits(&self) -> (q: u32)
        ensures
            q == self.qubits(),
    {
        self.num_qubits
    }

    /// The current amplitude vector.
    pub fn state(&self) -> (v: &AmplitudeVector)
        ensures
            v@ == self@,
    {
        &self.state
    }

    /// Replaces the state by `gate × state`.
    ///
    /// The exact product is kept as it is where it is within the limits,
    /// and in its reduced form otherwise. Fails with `DimensionMismatch`
    /// when `gate` is not of dimension `2^num_qubits`, and with
    /// `Unrepresentable` when not even the reduced form of the product is
    /// within the limits; the state is then as it was.
    pub fn apply_gate(&mut self, gate: &Gate) -> (r: Result<(), SimError>)
        requires
            old(self).wf(),
            gate.wf(),
        ensures
            r == apply_outcome(gate@, old(self)@),
            r is Ok ==> final(self)@.stores(apply_model(gate@, old(self)@)),
            r is Err ==> *final(self) == *old(self),
            final(self).wf(),
            final(self).qubits() == old(self).qubits(),
    {
        self.state.apply(gate)
    }

    /// Replaces the state by its discrete Fourier transform.
    ///
    /// Fails with `Unrepresentable` on a register of more than
    /// `MAX_FOURIER_QUBITS` qubits, and when the exact result cannot be
    /// stored; the state is then as it was.
    pub fn fourier_transform(&mut self) -> (r: Result<(), SimError>)
        requires
            old(self).wf(),
        ensures
            r == fourier_outcome(old(self).qubits(), old(self)@),
            r is Ok ==> final(self)@.stores(
                apply_model(fourier_model(old(self).qubits()), old(self)@),
            ),
            r is Err ==> *final(self) == *old(self),
            final(self).wf(),
            final(self).qubits() == old(self).qubits(),
    {
        match fourier_gate(self.num_qubits) {
            Some(gate) => self.state.apply(&gate),
            None => Err(SimError::Unrepresentable),
        }
    }

    /// Replaces the state by its inverse discrete Fourier transform: the
    /// conjugate transpose of the Fourier operator is applied.
    ///
    /// Fails as `fourier_transform` does.
    pub fn inverse_fourier_transform(&mut self) -> (r: Result<(), SimError>)
        requires
            old(self).wf(),
        ensures
            r == inverse_fourier_outcome(old(self).qubits(), old(self)@),
            r is Ok ==> final(self)@.stores(
                apply_model(fourier_model(old(self).qubits()).adjoint(), old(self)@),
            ),
            r is Err ==> *final(self) == *old(self),
            final(self).wf(),
            final(self).qubits() == old(self).qubits(),
    {
        match fourier_gate(self.num_qubits) {
            Some(gate) => {
                let inverse = gate.adjoint();
                self.state.apply(&inverse)
            },
            None => Err(SimError::Unrepresentable),
        }
    }

    /// Rewrites the state with as few factors of `1/√2` as its numerators
    /// allow. The amplitudes it stands for stay the same.
    pub fn reduce(&mut self)
        requires
            old(self).wf(),
        ensures
            final(self).wf(),
            final(self).qubits() == old(self).qubits(),
            final(self)@.is_reduced(),
            exists|m: nat| #[trigger] final(self)@.rescaled(m) == old(self)@,
    {
        let ghost start = self@;
        self.state.reduce();
        proof {
            let m = choose|m: nat| #[trigger] self@.rescaled(m) == start;
            assert(self@.rescaled(m).amps.len() == self@.amps.len());
        }
    }

    /// Samples a basis state with a given draw, leaving the state as it
    /// is.
    pub fn measure_with(&self, draw: u64) -> (r: MeasurementOutcome)
        requires
            self.wf(),
            draw < DRAW_RANGE,
        ensures
            self@.is_outcome(draw as int, r),
    {
        self.state.sample(draw)
    }

    /// Samples a basis state with a draw taken from `rng`, leaving the
    /// state as it is.
    pub fn measure(&self, rng: &mut rand::rngs::StdRng) -> (r: MeasurementOutcome)
        requires
            self.wf(),
        ensures
            exists|draw: int| 0 <= draw < DRAW_RANGE && self@.is_outcome(draw, r),
    {
        self.state.measure(rng)
    }

    /// Samples a basis state with a given draw and collapses the state
    /// onto it.
    pub fn measure_collapse_with(&mut self, draw: u64) -> (r: MeasurementOutcome)
        requires
            old(self).wf(),
            draw < DRAW_RANGE,
        ensures
            old(self)@.is_outcome(draw as int, r),
            final(self)@ == StateModel::basis(old(self)@.len(), r.index as int),
            final(self).wf(),
            final(self).qubits() == old(self).qubits(),
    {
        self.state.sample_collapse(draw)
    }

    /// Samples a basis state with a draw taken from `rng` and collapses
    /// the state onto it.
    pub fn measure_collapse(&mut self, rng: &mut rand::rngs::StdRng) -> (r: MeasurementOutcome)
        requires
            old(self).wf(),
        ensures
            exists|draw: int| 0 <= draw < DRAW_RANGE && old(self)@.is_outcome(draw, r),
            final(self)@ == StateModel::basis(old(self)@.len(), r.index as int),
            final(self).wf(),
            final(self).qubits() == old(self).qubits(),
    {
        self.state.measure_collapse(rng)
    }

    /// The first basis state of largest probability. Nothing is drawn and
    /// the state is left as it is.
    pub fn peak(&self) -> (index: usize)
        requires
            self.wf(),
        ensures
            self@.is_peak(index as int),
    {
        self.state.peak_index()
    }

    /// The validation check for the norm: fails with `NumericalDrift` when
    /// the squared magnitudes of the amplitudes do not sum to exactly one.
    pub fn check_norm(&self) -> (r: Result<(), SimError>)
        requires
            self.wf(),
        ensures
            r is Ok <==> self@.is_normalized(),
            r is Err ==> r == Err::<(), SimError>(SimError::NumericalDrift),
    {
        self.state.check_norm()
    }
}

} // verus!
