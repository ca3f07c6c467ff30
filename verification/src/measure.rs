//! Measurement: sampling a basis state by the Born rule, picking the most
//! likely one, and collapsing the vector onto an outcome.

use vstd::prelude::*;
use vstd::arithmetic::power2::pow2;
use vstd::arithmetic::mul::lemma_mul_strict_inequality;
use crate::complex::WEIGHT_LIMIT;
use crate::qubits::{MAX_QUBITS, has_bit, bit_is_set};
use crate::random::next_bits;
use crate::gate::power_of_two;
use crate::state::{AmplitudeVector, StateModel, weight_sum};

verus! {

/// The number of equally likely draws: a draw `d` stands for the point
/// `d / 2^53` of the unit interval.
pub const DRAW_RANGE: u64 = 0x20_0000_0000_0000;

/// The basis state a measurement gave, with the probability it had when it
/// was sampled: `weight / 2^sqrt2_exp`.
#[derive(Clone, Copy, Debug, PartialEq, Eq, Structural)]
pub struct MeasurementOutcome {
    pub index: usize,
    pub weight: u64,
    pub sqrt2_exp: u32,
}

impl StateModel {
    /// The weight of the basis states `0..=i`.
    pub open spec fn cumulative(self, i: int) -> int {
        weight_sum(self.amps, (i + 1) as nat)
    }

    /// The draw lies below the probability accumulated up to `i`:
    /// `draw / 2^53 < cumulative(i) / 2^sqrt2_exp`.
    pub open spec fn reached(self, draw: int, i: int) -> bool {
        draw * pow2(self.sqrt2_exp) < DRAW_RANGE * self.cumulative(i)
    }

    /// `index` is what sampling with `draw` gives: the first basis state at
    /// which the accumulated probability exceeds the draw, and basis state
    /// zero when there is none.
    pub open spec fn sampled(self, draw: int, index: int) -> bool {
        &&& 0 <= index < self.len()
        &&& forall|j: int| 0 <= j < index ==> !self.reached(draw, j)
        &&& (self.reached(draw, index) || (index == 0 && forall|j: int|
            0 <= j < self.len() ==> !self.reached(draw, j)))
    }

    /// `r` is the outcome of sampling with `draw`, with the probability of
    /// its basis state.
    pub open spec fn is_outcome(self, draw: int, r: MeasurementOutcome) -> bool {
        &&& self.sampled(draw, r.index as int)
        &&& r.weight == self.weight(r.index as int)
        &&& r.sqrt2_exp == self.sqrt2_exp
    }

    /// `index` is the first basis state of largest probability.
    pub open spec fn is_peak(self, index: int) -> bool {
        &&& 0 <= index < self.len()
        &&& forall|j: int| 0 <= j < self.len() ==> self.weight(j) <= self.weight(index)
        &&& forall|j: int| 0 <= j < index ==> self.weight(j) < self.weight(index)
    }
}

/// Character `pos` of the rendering of `index` in `width` binary digits,
/// the most significant first.
pub open spec fn bit_char(index: usize, width: nat, pos: int) -> char {
    if has_bit(index, (width - 1 - pos) as usize) {
        '1'
    } else {
        '0'
    }
}

/// The low `width` bits of `index` as binary digits, the most significant
/// first.
pub open spec fn bit_string_model(index: usize, width: nat) -> Seq<char> {
    Seq::new(width, |pos: int| bit_char(index, width, pos))
}

/// Calls `String::push`, which appends one character to the string.
#[verifier::external_body]
fn push_char(s: &mut String, c: char)
    ensures
        final(s)@ == old(s)@.push(c),
{
    s.push(c)
}

/// Renders a basis state as `width` binary digits, one per qubit, the most
/// significant first.
pub fn bit_string(index: usize, width: u32) -> (s: String)
    requires
        width <= MAX_QUBITS,
    ensures
        s@ == bit_string_model(index, width as nat),
{
    let mut s = String::new();
    let mut pos: u32 = 0;
    while pos < width
        invariant
            pos <= width <= MAX_QUBITS,
            s@.len() == pos,
            forall|p: int| 0 <= p < pos ==> #[trigger] s@[p] == bit_char(index, width as nat, p),
        decreases width - pos,
    {
        let c = if bit_is_set(index, width - 1 - pos) {
            '1'
        } else {
            '0'
        };
        push_char(&mut s, c);
        pos += 1;
    }
    assert(s@ =~= bit_string_model(index, width as nat));
    s
}

/// Turns 64 random bits into a draw, keeping the 53 highest.
pub fn draw_from_bits(bits: u64) -> (draw: u64)
    ensures
        draw < DRAW_RANGE,
        draw == bits / 2048,
{
    assert((bits >> 11) < 0x20_0000_0000_0000u64 && (bits >> 11) == bits / 2048) by (bit_vector);
    bits >> 11
}

impl AmplitudeVector {
    /// Samples a basis state with a given draw, leaving the vector as it is.
    ///
    /// The basis states are taken in order and their probabilities added up;
    /// the first at which the sum exceeds `draw / 2^53` is the outcome. When
    /// the probabilities sum to less than the draw, the outcome is basis
    /// state zero.
    pub fn sample(&self, draw: u64) -> (r: MeasurementOutcome)
        requires
            self.wf(),
            draw < DRAW_RANGE,
        ensures
            self@.is_outcome(draw as int, r),
    {
        let n = self.len();
        let k = self.sqrt2_exp();
        let unit: u64 = power_of_two(k);
        assert(draw * unit <= 0x20_0000_0000_0000 * 0x1000_0000_0000_0000) by (nonlinear_arith)
            requires
                draw < 0x20_0000_0000_0000,
                unit <= 0x1000_0000_0000_0000,
        ;
        let lhs: u128 = (draw as u128) * (unit as u128);
        let mut cum: u128 = 0;
        let mut i: usize = 0;
        while i < n
            invariant
                self.wf(),
                n == self@.len(),
                k == self@.sqrt2_exp,
                draw < DRAW_RANGE,
                i <= n,
                unit == pow2(k as nat),
                1 <= unit <= 0x1000_0000_0000_0000,
                lhs == draw * unit,
                cum == weight_sum(self@.amps, i as nat),
                cum <= i * WEIGHT_LIMIT,
                forall|j: int| 0 <= j < i ==> !self@.reached(draw as int, j),
            decreases n - i,
        {
            let w = self.weight(i);
            cum = cum + (w as u128);
            assert(cum == self@.cumulative(i as int));
            let hit = if cum >= (unit as u128) {
                proof {
                    lemma_mul_strict_inequality(draw as int, DRAW_RANGE as int, unit as int);
                }
                true
            } else {
                lhs < (DRAW_RANGE as u128) * cum
            };
            assert(hit == self@.reached(draw as int, i as int));
            if hit {
                return MeasurementOutcome { index: i, weight: w, sqrt2_exp: k };
            }
            i += 1;
        }
        MeasurementOutcome { index: 0, weight: self.weight(0), sqrt2_exp: k }
    }

    /// The first basis state of largest probability. Nothing is drawn.
    pub fn peak_index(&self) -> (index: usize)
        requires
            self.wf(),
        ensures
            self@.is_peak(index as int),
    {
        let n = self.len();
        let mut best: usize = 0;
        let mut best_weight: u64 = self.weight(0);
        let mut i: usize = 1;
        while i < n
            invariant
                self.wf(),
                n == self@.len(),
                1 <= i <= n,
                best < i,
                best_weight == self@.weight(best as int),
                forall|j: int| 0 <= j < i ==> self@.weight(j) <= best_weight,
                forall|j: int| 0 <= j < best ==> self@.weight(j) < best_weight,
            decreases n - i,
        {
            let w = self.weight(i);
            if w > best_weight {
                best = i;
                best_weight = w;
            }
            i += 1;
        }
        best
    }

    /// Resets the vector to the basis state `index`.
    pub fn collapse(&mut self, index: usize)
        requires
            index < old(self)@.len(),
        ensures
            final(self)@ == StateModel::basis(old(self)@.len(), index as int),
            final(self).wf(),
    {
        let n = self.len();
        match AmplitudeVector::basis(n, index) {
            Some(v) => {
                *self = v;
            },
            None => {},
        }
    }

    /// Samples a basis state with a given draw and collapses the vector
    /// onto it.
    pub fn sample_collapse(&mut self, draw: u64) -> (r: MeasurementOutcome)
        requires
            old(self).wf(),
            draw < DRAW_RANGE,
        ensures
            old(self)@.is_outcome(draw as int, r),
            final(self)@ == StateModel::basis(old(self)@.len(), r.index as int),
            final(self).wf(),
    {
        let r = self.sample(draw);
        self.collapse(r.index);
        r
    }

    /// Samples a basis state with a draw taken from `rng`, leaving the
    /// vector as it is.
    pub fn measure(&self, rng: &mut rand::rngs::StdRng) -> (r: MeasurementOutcome)
        requires
            self.wf(),
        ensures
            exists|draw: int| 0 <= draw < DRAW_RANGE && self@.is_outcome(draw, r),
    {
        let draw = draw_from_bits(next_bits(rng));
        let r = self.sample(draw);
        assert(self@.is_outcome(draw as int, r));
        r
    }

    /// Samples a basis state with a draw taken from `rng` and collapses the
    /// vector onto it.
    pub fn measure_collapse(&mut self, rng: &mut rand::rngs::StdRng) -> (r: MeasurementOutcome)
        requires
            old(self).wf(),
        ensures
            exists|draw: int| 0 <= draw < DRAW_RANGE && old(self)@.is_outcome(draw, r),
            final(self)@ == StateModel::basis(old(self)@.len(), r.index as int),
            final(self).wf(),
    {
        let draw = draw_from_bits(next_bits(rng));
        let r = self.sample_collapse(draw);
        assert(old(self)@.is_outcome(draw as int, r));
        r
    }
}

} // verus!
