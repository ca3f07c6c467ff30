//! Decoherence: with a small probability, a Pauli-Z gate on qubit zero
//! strikes the register between two operations.

use vstd::prelude::*;
use crate::circuit::QuantumCircuit;
use crate::laws::lemma_pauli_z_action;
use crate::library::{pauli_z_gate, pauli_z_model};
use crate::random::bernoulli_trial;
use crate::state::{StateModel, apply_model};

verus! {

/// A probability as a ratio of integers.
#[derive(Clone, Copy, Debug)]
pub struct Probability {
    numerator: u32,
    denominator: u32,
}

impl Probability {
    /// The numerator of the ratio.
    pub closed spec fn num(&self) -> nat {
        self.numerator as nat
    }

    /// The denominator of the ratio.
    pub closed spec fn den(&self) -> nat {
        self.denominator as nat
    }

    /// The ratio lies between zero and one.
    pub open spec fn wf(&self) -> bool {
        0 < self.den() && self.num() <= self.den()
    }

    /// The probability `numerator / denominator`, or `None` when that is
    /// not a number between zero and one.
    pub fn new(numerator: u32, denominator: u32) -> (r: Option<Probability>)
        ensures
            r is Some <==> 0 < denominator && numerator <= denominator,
            r matches Some(p) ==> p.wf() && p.num() == numerator && p.den() == denominator,
    {
        if denominator == 0 || numerator > denominator {
            None
        } else {
            Some(Probability { numerator, denominator })
        }
    }

    /// One in a hundred: the probability with which noise strikes unless
    /// the caller says otherwise.
    pub fn one_percent() -> (p: Probability)
        ensures
            p.wf(),
            p.num() == 1,
            p.den() == 100,
    {
        Probability { numerator: 1, denominator: 100 }
    }

    /// The numerator of the ratio.
    pub fn numerator(&self) -> (n: u32)
        ensures
            n == self.num(),
    {
        self.numerator
    }

    /// The denominator of the ratio.
    pub fn denominator(&self) -> (d: u32)
        ensures
            d == self.den(),
    {
        self.denominator
    }
}

/// The state after noise has struck a register of `num_qubits` in state
/// `v`: Pauli-Z applied to qubit zero. A register without qubits has
/// nothing to strike.
pub open spec fn noise_model(num_qubits: nat, v: StateModel) -> StateModel {
    if num_qubits == 0 {
        v
    } else {
        apply_model(pauli_z_model(num_qubits, 0), v)
    }
}

impl QuantumCircuit {
    /// Lets noise strike the register if `strikes`, and leaves it alone
    /// otherwise.
    pub fn apply_noise(&mut self, strikes: bool)
        requires
            old(self).wf(),
        ensures
            strikes ==> final(self)@ == noise_model(old(self).qubits(), old(self)@),
            !strikes ==> *final(self) == *old(self),
            final(self).wf(),
            final(self).qubits() == old(self).qubits(),
    {
        if strikes {
            match pauli_z_gate(self.num_qubits(), 0) {
                Some(gate) => {
                    proof {
                        lemma_pauli_z_action(self.qubits(), 0, self@);
                    }
                    let _ = self.apply_gate(&gate);
                },
                None => {},
            }
        }
    }

    /// One Bernoulli trial: with the given probability, noise strikes the
    /// register. No trial depends on an earlier one.
    pub fn inject_decoherence(&mut self, rng: &mut rand::rngs::StdRng, probability: Probability)
        requires
            old(self).wf(),
            probability.wf(),
        ensures
            final(self)@ == old(self)@ || final(self)@ == noise_model(
                old(self).qubits(),
                old(self)@,
            ),
            probability.num() == 0 ==> *final(self) == *old(self),
            probability.num() == probability.den() ==> final(self)@ == noise_model(
                old(self).qubits(),
                old(self)@,
            ),
            final(self).wf(),
            final(self).qubits() == old(self).qubits(),
    {
        let strikes = bernoulli_trial(rng, probability.numerator(), probability.denominator());
        self.apply_noise(strikes);
    }

    /// One Bernoulli trial with the default probability of one in a
    /// hundred.
    pub fn decohere(&mut self, rng: &mut rand::rngs::StdRng)
        requires
            old(self).wf(),
        ensures
            final(self)@ == old(self)@ || final(self)@ == noise_model(
                old(self).qubits(),
                old(self)@,
            ),
            final(self).wf(),
            final(self).qubits() == old(self).qubits(),
    {
        self.inject_decoherence(rng, Probability::one_percent());
    }
}

} // verus!
