//! The amplitude vector of a register, and the application of gates to it.

use vstd::prelude::*;
use vstd::arithmetic::power2::{pow2, lemma_pow2_unfold, lemma2_to64};
use crate::complex::{Cx, Gaussian, AMP_LIMIT, TERM_LIMIT, WEIGHT_LIMIT};
use crate::error::SimError;
use crate::gate::{Gate, GateModel, MAX_SQRT2_EXP, row_model, power_of_two};
use crate::laws::{lemma_rescaled_zero, lemma_reduced_form_is_smallest};
use crate::sums::{sum_to, dot, dot_term};

verus! {

/// An amplitude vector as a mathematical value: amplitude `i` is
/// `amps[i] / (√2)^sqrt2_exp`.
pub struct StateModel {
    pub amps: Seq<Cx>,
    pub sqrt2_exp: nat,
}

/// The sum of the squared magnitudes of the first `n` numerators.
pub open spec fn weight_sum(amps: Seq<Cx>, n: nat) -> int
    decreases n,
{
    if n == 0 {
        0
    } else {
        weight_sum(amps, (n - 1) as nat) + amps[n - 1].norm_sq()
    }
}

impl StateModel {
    /// The number of amplitudes.
    pub open spec fn len(self) -> nat {
        self.amps.len()
    }

    /// The vector is not empty and every stored number is within its limit.
    pub open spec fn wf(self) -> bool {
        &&& self.amps.len() >= 1
        &&& forall|i: int|
            0 <= i < self.amps.len() ==> (#[trigger] self.amps[i]).within(AMP_LIMIT as int)
        &&& self.sqrt2_exp <= MAX_SQRT2_EXP
    }

    /// The squared magnitude of numerator `i`. The probability of basis
    /// state `i` is `weight(i) / 2^sqrt2_exp`.
    pub open spec fn weight(self, i: int) -> int {
        self.amps[i].norm_sq()
    }

    /// The sum of all weights. The total probability is
    /// `total_weight() / 2^sqrt2_exp`.
    pub open spec fn total_weight(self) -> int {
        weight_sum(self.amps, self.amps.len())
    }

    /// The squared magnitudes of the amplitudes sum to exactly one.
    pub open spec fn is_normalized(self) -> bool {
        self.total_weight() == pow2(self.sqrt2_exp)
    }

    /// The same vector written with `2·m` more factors of `1/√2`: every
    /// numerator is multiplied by `2^m`.
    pub open spec fn rescaled(self, m: nat) -> StateModel {
        StateModel {
            amps: Seq::new(
                self.amps.len(),
                |i: int| Cx::from_int(pow2(m) as int).times(self.amps[i]),
            ),
            sqrt2_exp: self.sqrt2_exp + 2 * m,
        }
    }

    /// Every component of every numerator is even.
    pub open spec fn all_even(self) -> bool {
        forall|i: int|
            0 <= i < self.amps.len() ==> (#[trigger] self.amps[i]).re % 2 == 0
                && self.amps[i].im % 2 == 0
    }

    /// The vector is written with as few factors of `1/√2` as its
    /// numerators allow: no factor of two can be taken out of all of them
    /// and paid for with two of those factors.
    pub open spec fn is_reduced(self) -> bool {
        self.sqrt2_exp < 2 || !self.all_even()
    }

    /// `self` stands for the same amplitudes as `other` and is written
    /// with no more factors of `1/√2`: multiplying its numerators by some
    /// power of two gives `other`.
    pub open spec fn is_form_of(self, other: StateModel) -> bool {
        exists|m: nat| #[trigger] self.rescaled(m) == other
    }

    /// `self` and `other` stand for the same amplitudes, however many
    /// factors of `1/√2` each is written with.
    pub open spec fn same_amplitudes(self, other: StateModel) -> bool {
        exists|a: nat, b: nat| #[trigger] self.rescaled(a) == #[trigger] other.rescaled(b)
    }

    /// Some vector within the limits stands for these amplitudes.
    pub open spec fn storable(self) -> bool {
        exists|w: StateModel, m: nat| w.wf() && #[trigger] w.rescaled(m) == self
    }

    /// `self` is how the exact vector `exact` is kept: as it is where it
    /// is within the limits, and in its reduced form otherwise.
    pub open spec fn stores(self, exact: StateModel) -> bool {
        if exact.wf() {
            self == exact
        } else {
            self.is_reduced() && self.is_form_of(exact)
        }
    }

    /// The basis state `index` of a space of dimension `n`: amplitude one
    /// at `index`, zero elsewhere.
    pub open spec fn basis(n: nat, index: int) -> StateModel {
        StateModel {
            amps: Seq::new(n, |i: int| if i == index { Cx::one() } else { Cx::zero() }),
            sqrt2_exp: 0,
        }
    }
}

/// The matrix-vector product `g × v`: component `i` is the product of row
/// `i` of the matrix with the vector, and the exponents add.
pub open spec fn apply_model(g: GateModel, v: StateModel) -> StateModel {
    StateModel {
        amps: Seq::new(v.amps.len(), |i: int| dot(g.rows[i], v.amps)),
        sqrt2_exp: g.sqrt2_exp + v.sqrt2_exp,
    }
}

/// What applying `g` to `v` returns: a mismatch of dimensions comes first,
/// then a product that no vector within the limits stands for, however
/// few factors of `1/√2` it is written with.
pub open spec fn apply_outcome(g: GateModel, v: StateModel) -> Result<(), SimError> {
    if g.dim() != v.len() {
        Err(SimError::DimensionMismatch)
    } else if !apply_model(g, v).storable() {
        Err(SimError::Unrepresentable)
    } else {
        Ok(())
    }
}

/// The vector that numerators in wide words stand for.
pub open spec fn wide_model(raw: Seq<(i128, i128)>, sqrt2_exp: nat) -> StateModel {
    StateModel {
        amps: Seq::new(raw.len(), |i: int| Cx { re: raw[i].0 as int, im: raw[i].1 as int }),
        sqrt2_exp,
    }
}

/// Tells whether numerators in wide words, with their exponent, are within
/// the limits of a stored vector.
fn wide_fits(raw: &Vec<(i128, i128)>, sqrt2_exp: u32) -> (ok: bool)
    ensures
        ok == wide_model(raw@, sqrt2_exp as nat).wf(),
{
    let ghost model = wide_model(raw@, sqrt2_exp as nat);
    let n = raw.len();
    if n == 0 || sqrt2_exp > MAX_SQRT2_EXP {
        return false;
    }
    let mut i: usize = 0;
    while i < n
        invariant
            n == raw.len(),
            i <= n,
            model == wide_model(raw@, sqrt2_exp as nat),
            forall|a: int| 0 <= a < i ==> (#[trigger] model.amps[a]).within(AMP_LIMIT as int),
        decreases n - i,
    {
        let c = raw[i];
        if c.0 < -(AMP_LIMIT as i128) || c.0 > (AMP_LIMIT as i128) || c.1 < -(AMP_LIMIT as i128)
            || c.1 > (AMP_LIMIT as i128) {
            assert(!model.amps[i as int].within(AMP_LIMIT as int));
            return false;
        }
        i += 1;
    }
    true
}

/// Tells whether every component of numerators in wide words is even.
fn wide_all_even(raw: &Vec<(i128, i128)>, sqrt2_exp: Ghost<nat>) -> (b: bool)
    ensures
        b == wide_model(raw@, sqrt2_exp@).all_even(),
{
    let ghost model = wide_model(raw@, sqrt2_exp@);
    let n = raw.len();
    let mut i: usize = 0;
    while i < n
        invariant
            n == raw.len(),
            i <= n,
            model == wide_model(raw@, sqrt2_exp@),
            forall|a: int|
                0 <= a < i ==> (#[trigger] model.amps[a]).re % 2 == 0 && model.amps[a].im % 2 == 0,
        decreases n - i,
    {
        let c = raw[i];
        if c.0 % 2 != 0 || c.1 % 2 != 0 {
            assert(model.amps[i as int] == (Cx { re: c.0 as int, im: c.1 as int }));
            return false;
        }
        i += 1;
    }
    true
}

/// Rewrites numerators in wide words with as few factors of `1/√2` as
/// they allow.
fn wide_reduce(raw: Vec<(i128, i128)>, sqrt2_exp: u32) -> (out: (Vec<(i128, i128)>, u32))
    ensures
        wide_model(out.0@, out.1 as nat).is_reduced(),
        wide_model(out.0@, out.1 as nat).is_form_of(wide_model(raw@, sqrt2_exp as nat)),
{
    let ghost start = wide_model(raw@, sqrt2_exp as nat);
    let ghost mut m: nat = 0;
    let mut cur = raw;
    let mut exp = sqrt2_exp;
    proof {
        lemma_rescaled_zero(start);
    }
    while exp >= 2 && wide_all_even(&cur, Ghost(exp as nat))
        invariant
            wide_model(cur@, exp as nat).rescaled(m) == start,
        ensures
            wide_model(cur@, exp as nat).rescaled(m) == start,
            wide_model(cur@, exp as nat).is_reduced(),
        decreases exp,
    {
        let ghost before = wide_model(cur@, exp as nat);
        let n = cur.len();
        let mut half: Vec<(i128, i128)> = Vec::new();
        let mut i: usize = 0;
        while i < n
            invariant
                before == wide_model(cur@, exp as nat),
                before.all_even(),
                n == cur.len(),
                i <= n,
                half.len() == i,
                forall|a: int|
                    0 <= a < i ==> 2 * (#[trigger] half[a]).0 == cur[a].0 && 2 * half[a].1
                        == cur[a].1,
            decreases n - i,
        {
            let c = cur[i];
            assert(before.amps[i as int] == (Cx { re: c.0 as int, im: c.1 as int }));
            half.push((c.0 / 2, c.1 / 2));
            i += 1;
        }
        cur = half;
        exp = exp - 2;
        proof {
            let now = wide_model(cur@, exp as nat);
            lemma_pow2_unfold(m + 1);
            let p = pow2(m) as int;
            assert forall|a: int| 0 <= a < n implies #[trigger] now.rescaled(m + 1).amps[a]
                == start.amps[a] by {
                let x = now.amps[a];
                assert(start.amps[a] == before.rescaled(m).amps[a]);
                assert(2 * x.re == before.amps[a].re && 2 * x.im == before.amps[a].im);
                assert((2 * p) * x.re == p * (2 * x.re)) by (nonlinear_arith);
                assert((2 * p) * x.im == p * (2 * x.im)) by (nonlinear_arith);
            }
            assert(now.rescaled(m + 1).amps =~= start.amps);
            m = m + 1;
        }
    }
    (cur, exp)
}

/// Moves numerators that are within the limits from wide words to the
/// words of a stored vector.
fn narrow(raw: &Vec<(i128, i128)>, sqrt2_exp: Ghost<nat>) -> (out: Vec<Gaussian>)
    requires
        forall|a: int|
            0 <= a < raw.len() ==> (#[trigger] wide_model(raw@, sqrt2_exp@).amps[a]).within(
                AMP_LIMIT as int,
            ),
    ensures
        row_model(out@) == wide_model(raw@, sqrt2_exp@).amps,
{
    let ghost model = wide_model(raw@, sqrt2_exp@);
    let n = raw.len();
    let mut out: Vec<Gaussian> = Vec::new();
    let mut i: usize = 0;
    while i < n
        invariant
            n == raw.len(),
            i <= n,
            out.len() == i,
            model == wide_model(raw@, sqrt2_exp@),
            forall|a: int| 0 <= a < n ==> (#[trigger] model.amps[a]).within(AMP_LIMIT as int),
            forall|a: int| 0 <= a < i ==> (#[trigger] out[a])@ == model.amps[a],
        decreases n - i,
    {
        let c = raw[i];
        assert(model.amps[i as int].within(AMP_LIMIT as int));
        out.push(Gaussian { re: c.0 as i64, im: c.1 as i64 });
        i += 1;
    }
    assert(row_model(out@) =~= model.amps);
    out
}

/// The joint state of a register: one exact amplitude per basis state.
pub struct AmplitudeVector {
    amps: Vec<Gaussian>,
    sqrt2_exp: u32,
}

impl View for AmplitudeVector {
    type V = StateModel;

    closed spec fn view(&self) -> StateModel {
        StateModel { amps: row_model(self.amps@), sqrt2_exp: self.sqrt2_exp as nat }
    }
}

impl AmplitudeVector {
    /// The stored vector is not empty and within its limits.
    pub open spec fn wf(&self) -> bool {
        self@.wf()
    }

    /// Builds a vector from its numerators and exponent, or returns `None`
    /// when there is no numerator, a component exceeds `AMP_LIMIT`, or the
    /// exponent exceeds `MAX_SQRT2_EXP`.
    pub fn from_parts(amps: Vec<Gaussian>, sqrt2_exp: u32) -> (r: Option<AmplitudeVector>)
        ensures
            r is Some <==> (StateModel { amps: row_model(amps@), sqrt2_exp: sqrt2_exp as nat }).wf(),
            r matches Some(v) ==> v@ == (StateModel {
                amps: row_model(amps@),
                sqrt2_exp: sqrt2_exp as nat,
            }),
    {
        let ghost model = StateModel { amps: row_model(amps@), sqrt2_exp: sqrt2_exp as nat };
        let n = amps.len();
        if n == 0 || sqrt2_exp > MAX_SQRT2_EXP {
            return None;
        }
        let mut i: usize = 0;
        while i < n
            invariant
                n == amps.len(),
                i <= n,
                model == (StateModel { amps: row_model(amps@), sqrt2_exp: sqrt2_exp as nat }),
                forall|a: int| 0 <= a < i ==> (#[trigger] model.amps[a]).within(AMP_LIMIT as int),
            decreases n - i,
        {
            if !amps[i].fits() {
                assert(!model.amps[i as int].within(AMP_LIMIT as int));
                return None;
            }
            i += 1;
        }
        Some(AmplitudeVector { amps, sqrt2_exp })
    }

    /// The basis state `index` of a space of dimension `len`, or `None`
    /// when `index` is not below `len`.
    pub fn basis(len: usize, index: usize) -> (r: Option<AmplitudeVector>)
        ensures
            r is Some <==> index < len,
            r matches Some(v) ==> v@ == StateModel::basis(len as nat, index as int) && v.wf(),
    {
        if index >= len {
            return None;
        }
        let mut amps: Vec<Gaussian> = Vec::new();
        let mut i: usize = 0;
        while i < len
            invariant
                i <= len,
                amps.len() == i,
                forall|a: int|
                    0 <= a < i ==> (#[trigger] amps[a])@ == (if a == index {
                        Cx::one()
                    } else {
                        Cx::zero()
                    }),
            decreases len - i,
        {
            if i == index {
                amps.push(Gaussian::one());
            } else {
                amps.push(Gaussian::zero());
            }
            i += 1;
        }
        let v = AmplitudeVector { amps, sqrt2_exp: 0 };
        assert(v@.amps =~= StateModel::basis(len as nat, index as int).amps);
        Some(v)
    }

    /// The number of amplitudes.
    pub fn len(&self) -> (n: usize)
        ensures
            n == self@.len(),
    {
        self.amps.len()
    }

    /// The exponent `k` of the common factor `1/(√2)^k`.
    pub fn sqrt2_exp(&self) -> (k: u32)
        ensures
            k == self@.sqrt2_exp,
    {
        self.sqrt2_exp
    }

    /// The numerator of amplitude `i`.
    pub fn amplitude(&self, i: usize) -> (g: Gaussian)
        requires
            i < self@.len(),
        ensures
            g@ == self@.amps[i as int],
    {
        self.amps[i]
    }

    /// The squared magnitude of numerator `i`.
    pub fn weight(&self, i: usize) -> (w: u64)
        requires
            self.wf(),
            i < self@.len(),
        ensures
            w == self@.weight(i as int),
            w <= WEIGHT_LIMIT,
    {
        assert(self@.amps[i as int].within(AMP_LIMIT as int));
        self.amps[i].norm_sq()
    }

    /// Tells whether every component of every numerator is even.
    fn all_even(&self) -> (b: bool)
        ensures
            b == self@.all_even(),
    {
        let n = self.amps.len();
        let mut i: usize = 0;
        while i < n
            invariant
                n == self.amps.len(),
                i <= n,
                forall|a: int|
                    0 <= a < i ==> (#[trigger] self@.amps[a]).re % 2 == 0 && self@.amps[a].im % 2
                        == 0,
            decreases n - i,
        {
            let g = self.amps[i];
            if g.re % 2 != 0 || g.im % 2 != 0 {
                assert(self@.amps[i as int] == g@);
                return false;
            }
            i += 1;
        }
        true
    }

    /// Rewrites the vector with as few factors of `1/√2` as its numerators
    /// allow. The amplitudes it stands for stay the same.
    pub fn reduce(&mut self)
        requires
            old(self).wf(),
        ensures
            final(self).wf(),
            final(self)@.is_reduced(),
            exists|m: nat| #[trigger] final(self)@.rescaled(m) == old(self)@,
    {
        let ghost start = self@;
        let ghost mut m: nat = 0;
        proof {
            lemma2_to64();
            assert(self@.rescaled(0).amps =~= start.amps);
        }
        while self.sqrt2_exp >= 2 && self.all_even()
            invariant
                self.wf(),
                self@.rescaled(m) == start,
            ensures
                self.wf(),
                self@.rescaled(m) == start,
                self@.is_reduced(),
            decreases self.sqrt2_exp,
        {
            let ghost before = self@;
            let n = self.amps.len();
            let mut out: Vec<Gaussian> = Vec::new();
            let mut i: usize = 0;
            while i < n
                invariant
                    self.wf(),
                    self@.all_even(),
                    n == self.amps.len(),
                    i <= n,
                    out.len() == i,
                    forall|a: int|
                        0 <= a < i ==> 2 * (#[trigger] out[a]).re == self@.amps[a].re && 2
                            * out[a].im == self@.amps[a].im,
                decreases n - i,
            {
                let g = self.amps[i];
                assert(self@.amps[i as int] == g@);
                assert(g@.within(AMP_LIMIT as int));
                out.push(Gaussian { re: g.re / 2, im: g.im / 2 });
                i += 1;
            }
            self.amps = out;
            self.sqrt2_exp = self.sqrt2_exp - 2;
            proof {
                assert forall|a: int| 0 <= a < n implies (#[trigger] self@.amps[a]).within(
                    AMP_LIMIT as int,
                ) by {
                    assert(before.amps[a].within(AMP_LIMIT as int));
                    assert(2 * self@.amps[a].re == before.amps[a].re);
                }
                lemma_pow2_unfold(m + 1);
                let p = pow2(m) as int;
                assert forall|a: int| 0 <= a < n implies #[trigger] self@.rescaled(m + 1).amps[a]
                    == start.amps[a] by {
                    let x = self@.amps[a];
                    assert(start.amps[a] == before.rescaled(m).amps[a]);
                    assert(2 * x.re == before.amps[a].re && 2 * x.im == before.amps[a].im);
                    assert((2 * p) * x.re == p * (2 * x.re)) by (nonlinear_arith);
                    assert((2 * p) * x.im == p * (2 * x.im)) by (nonlinear_arith);
                }
                assert(self@.rescaled(m + 1).amps =~= start.amps);
                m = m + 1;
            }
        }
    }

    /// The sum of the squared magnitudes of all numerators.
    pub fn total_weight(&self) -> (w: u128)
        requires
            self.wf(),
        ensures
            w == self@.total_weight(),
    {
        let n = self.amps.len();
        let mut sum: u128 = 0;
        let mut i: usize = 0;
        while i < n
            invariant
                self.wf(),
                n == self.amps.len(),
                i <= n,
                sum == weight_sum(self@.amps, i as nat),
                sum <= i * WEIGHT_LIMIT,
            decreases n - i,
        {
            let w = self.weight(i);
            sum = sum + (w as u128);
            i += 1;
        }
        sum
    }

    /// Tells whether the squared magnitudes of the amplitudes sum to
    /// exactly one.
    pub fn is_normalized(&self) -> (b: bool)
        requires
            self.wf(),
        ensures
            b == self@.is_normalized(),
    {
        let unit = power_of_two(self.sqrt2_exp);
        self.total_weight() == unit as u128
    }

    /// The validation check for the norm: fails with `NumericalDrift` when
    /// the squared magnitudes of the amplitudes do not sum to exactly one.
    pub fn check_norm(&self) -> (r: Result<(), SimError>)
        requires
            self.wf(),
        ensures
            r is Ok <==> self@.is_normalized(),
            r is Err ==> r == Err::<(), SimError>(SimError::NumericalDrift),
    {
        if self.is_normalized() {
            Ok(())
        } else {
            Err(SimError::NumericalDrift)
        }
    }

    /// The exact components of `gate × vector`, in wide words.
    fn product_sums(&self, gate: &Gate) -> (raw: Vec<(i128, i128)>)
        requires
            self.wf(),
            gate.wf(),
            gate@.dim() == self@.len(),
        ensures
            wide_model(raw@, 0).amps == apply_model(gate@, self@).amps,
    {
        let n = self.amps.len();
        let ghost product = apply_model(gate@, self@);
        let mut raw: Vec<(i128, i128)> = Vec::new();
        let mut i: usize = 0;
        while i < n
            invariant
                n == self.amps.len(),
                n == gate@.dim(),
                self.wf(),
                gate.wf(),
                i <= n,
                raw.len() == i,
                product == apply_model(gate@, self@),
                forall|a: int|
                    0 <= a < i ==> (Cx { re: (#[trigger] raw[a]).0 as int, im: raw[a].1 as int })
                        == product.amps[a],
            decreases n - i,
        {
            let row = gate.row(i);
            let ghost r = gate@.rows[i as int];
            let ghost f = dot_term(r, self@.amps);
            assert(r.len() == n);
            assert(row.len() == n) by {
                assert(row_model(row@).len() == row@.len());
            }
            let mut re: i128 = 0;
            let mut im: i128 = 0;
            let mut j: usize = 0;
            while j < n
                invariant
                    n == self.amps.len(),
                    n == gate@.dim(),
                    self.wf(),
                    gate.wf(),
                    i < n,
                    j <= n,
                    row.len() == n,
                    r == gate@.rows[i as int],
                    row_model(row@) == r,
                    f == dot_term(r, self@.amps),
                    sum_to(j as nat, f) == (Cx { re: re as int, im: im as int }),
                    -(j * TERM_LIMIT) <= re <= j * TERM_LIMIT,
                    -(j * TERM_LIMIT) <= im <= j * TERM_LIMIT,
                decreases n - j,
            {
                let a = row[j];
                let b = self.amps[j];
                proof {
                    assert(a@ == r[j as int]) by {
                        assert(row_model(row@)[j as int] == row@[j as int]@);
                    }
                    assert(b@ == self@.amps[j as int]);
                    assert(r[j as int].within(AMP_LIMIT as int));
                    assert(self@.amps[j as int].within(AMP_LIMIT as int));
                    assert(f(j as int) == a@.times(b@));
                }
                let term = a.times(&b);
                re = re + term.0;
                im = im + term.1;
                j += 1;
            }
            assert(product.amps[i as int] == (Cx { re: re as int, im: im as int }));
            raw.push((re, im));
            i += 1;
        }
        assert(wide_model(raw@, 0).amps =~= product.amps);
        raw
    }

    /// Replaces the vector by `gate × vector`.
    ///
    /// The exact product is kept as it is where it is within the limits,
    /// and in its reduced form otherwise. Fails, leaving the vector as it
    /// was, when the dimensions differ or when not even the reduced form of
    /// the product is within the limits.
    pub fn apply(&mut self, gate: &Gate) -> (r: Result<(), SimError>)
        requires
            old(self).wf(),
            gate.wf(),
        ensures
            r == apply_outcome(gate@, old(self)@),
            r is Ok ==> final(self)@.stores(apply_model(gate@, old(self)@)),
            r is Err ==> *final(self) == *old(self),
            final(self).wf(),
    {
        let n = self.amps.len();
        if gate.dim() != n {
            return Err(SimError::DimensionMismatch);
        }
        let ghost product = apply_model(gate@, self@);
        let exp: u32 = self.sqrt2_exp + gate.sqrt2_exp();
        let raw = self.product_sums(gate);
        assert(wide_model(raw@, exp as nat) == product);
        if wide_fits(&raw, exp) {
            proof {
                lemma_rescaled_zero(product);
            }
            self.amps = narrow(&raw, Ghost(exp as nat));
            self.sqrt2_exp = exp;
            return Ok(());
        }
        let (small, small_exp) = wide_reduce(raw, exp);
        let ghost reduced = wide_model(small@, small_exp as nat);
        let ghost steps = choose|m: nat| #[trigger] reduced.rescaled(m) == product;
        if wide_fits(&small, small_exp) {
            self.amps = narrow(&small, Ghost(small_exp as nat));
            self.sqrt2_exp = small_exp;
            assert(self@ == reduced);
            assert(reduced.rescaled(steps) == product);
            Ok(())
        } else {
            proof {
                assert forall|w: StateModel, m: nat| w.wf() implies #[trigger] w.rescaled(m)
                    != product by {
                    if w.rescaled(m) == product {
                        lemma_reduced_form_is_smallest(reduced, w, steps, m);
                    }
                }
            }
            Err(SimError::Unrepresentable)
        }
    }
}

} // verus!
