//! Gaussian integers: the numerators of exact amplitudes.
//!
//! Every amplitude the simulator handles has the form `(a + b·i) / (√2)^k`
//! with integers `a`, `b` and a natural number `k`. The numerator `a + b·i`
//! is a Gaussian integer; the exponent `k` is kept once per vector or gate.

use vstd::prelude::*;
use vstd::arithmetic::mul::{lemma_mul_is_associative, lemma_mul_is_distributive_add, lemma_mul_is_distributive_add_other_way, lemma_mul_is_distributive_sub, lemma_mul_is_distributive_sub_other_way};

verus! {

/// A Gaussian integer `re + im·i` as a mathematical value.
pub struct Cx {
    pub re: int,
    pub im: int,
}

impl Cx {
    /// The number zero.
    pub open spec fn zero() -> Cx {
        Cx { re: 0, im: 0 }
    }

    /// The number one.
    pub open spec fn one() -> Cx {
        Cx { re: 1, im: 0 }
    }

    /// The real number `c`, seen as a Gaussian integer.
    pub open spec fn from_int(c: int) -> Cx {
        Cx { re: c, im: 0 }
    }

    /// The sum.
    pub open spec fn plus(self, other: Cx) -> Cx {
        Cx { re: self.re + other.re, im: self.im + other.im }
    }

    /// The product: `(a + b·i)(c + d·i) = (ac - bd) + (ad + bc)·i`.
    pub open spec fn times(self, other: Cx) -> Cx {
        Cx {
            re: self.re * other.re - self.im * other.im,
            im: self.re * other.im + self.im * other.re,
        }
    }

    /// The complex conjugate.
    pub open spec fn conj(self) -> Cx {
        Cx { re: self.re, im: -self.im }
    }

    /// The negation.
    pub open spec fn neg(self) -> Cx {
        Cx { re: -self.re, im: -self.im }
    }

    /// The squared magnitude `re² + im²`.
    pub open spec fn norm_sq(self) -> int {
        self.re * self.re + self.im * self.im
    }

    /// Both components lie within `[-limit, limit]`.
    pub open spec fn within(self, limit: int) -> bool {
        -limit <= self.re <= limit && -limit <= self.im <= limit
    }
}

/// The largest magnitude a stored component may have.
pub const AMP_LIMIT: i64 = 0x4000_0000;

/// The largest squared magnitude of a stored number: `2 * AMP_LIMIT²`.
pub const WEIGHT_LIMIT: u64 = 0x2000_0000_0000_0000;

/// The bound on a component of the product of two stored numbers.
pub const TERM_LIMIT: i128 = 0x2000_0000_0000_0000;

/// A Gaussian integer in machine words.
#[derive(Clone, Copy, Debug, PartialEq, Eq, Structural)]
pub struct Gaussian {
    pub re: i64,
    pub im: i64,
}

impl View for Gaussian {
    type V = Cx;

    open spec fn view(&self) -> Cx {
        Cx { re: self.re as int, im: self.im as int }
    }
}

impl Gaussian {
    /// Both components lie within `[-AMP_LIMIT, AMP_LIMIT]`.
    pub open spec fn in_range(&self) -> bool {
        self@.within(AMP_LIMIT as int)
    }

    /// The number `re + im·i`.
    pub fn new(re: i64, im: i64) -> (g: Gaussian)
        ensures
            g.re == re,
            g.im == im,
    {
        Gaussian { re, im }
    }

    /// The number zero.
    pub fn zero() -> (g: Gaussian)
        ensures
            g@ == Cx::zero(),
    {
        Gaussian { re: 0, im: 0 }
    }

    /// The number one.
    pub fn one() -> (g: Gaussian)
        ensures
            g@ == Cx::one(),
    {
        Gaussian { re: 1, im: 0 }
    }

    /// Tells whether both components lie within the storage limit.
    pub fn fits(&self) -> (ok: bool)
        ensures
            ok == self.in_range(),
    {
        -AMP_LIMIT <= self.re && self.re <= AMP_LIMIT && -AMP_LIMIT <= self.im && self.im
            <= AMP_LIMIT
    }

    /// The complex conjugate.
    pub fn conj(&self) -> (g: Gaussian)
        requires
            self.in_range(),
        ensures
            g@ == self@.conj(),
            g.in_range(),
    {
        Gaussian { re: self.re, im: -self.im }
    }

    /// The product of two stored numbers, in words wide enough to hold
    /// it.
    pub fn times(&self, other: &Gaussian) -> (p: (i128, i128))
        requires
            self.in_range(),
            other.in_range(),
        ensures
            p.0 == self@.times(other@).re,
            p.1 == self@.times(other@).im,
            -TERM_LIMIT <= p.0 <= TERM_LIMIT,
            -TERM_LIMIT <= p.1 <= TERM_LIMIT,
    {
        proof {
            let limit = AMP_LIMIT as int;
            lemma_product_bound(self.re as int, other.re as int, limit, limit);
            lemma_product_bound(self.im as int, other.im as int, limit, limit);
            lemma_product_bound(self.re as int, other.im as int, limit, limit);
            lemma_product_bound(self.im as int, other.re as int, limit, limit);
        }
        let a = self.re as i128;
        let b = self.im as i128;
        let c = other.re as i128;
        let d = other.im as i128;
        (a * c - b * d, a * d + b * c)
    }

    /// The squared magnitude.
    pub fn norm_sq(&self) -> (w: u64)
        requires
            self.in_range(),
        ensures
            w == self@.norm_sq(),
            w <= WEIGHT_LIMIT,
    {
        proof {
            lemma_square_bound(self.re as int, AMP_LIMIT as int);
            lemma_square_bound(self.im as int, AMP_LIMIT as int);
        }
        let a: u64 = (self.re * self.re) as u64;
        let b: u64 = (self.im * self.im) as u64;
        a + b
    }
}

/// Zero times anything is zero.
pub proof fn lemma_times_zero(x: Cx)
    ensures
        Cx::zero().times(x) == Cx::zero(),
        x.times(Cx::zero()) == Cx::zero(),
{
}

/// One is neutral for multiplication.
pub proof fn lemma_times_one(x: Cx)
    ensures
        Cx::one().times(x) == x,
        x.times(Cx::one()) == x,
{
}

/// Multiplying by minus one negates.
pub proof fn lemma_times_minus_one(x: Cx)
    ensures
        Cx::from_int(-1).times(x) == x.neg(),
        x.times(Cx::from_int(-1)) == x.neg(),
{
}

/// A number times its conjugate is its squared magnitude.
pub proof fn lemma_times_conj(x: Cx)
    ensures
        x.times(x.conj()) == Cx::from_int(x.norm_sq()),
        x.conj().times(x) == Cx::from_int(x.norm_sq()),
{
    assert(x.re * x.re - x.im * (-x.im) == x.re * x.re + x.im * x.im) by (nonlinear_arith);
    assert(x.re * (-x.im) + x.im * x.re == 0) by (nonlinear_arith);
    assert(x.re * x.re - (-x.im) * x.im == x.re * x.re + x.im * x.im) by (nonlinear_arith);
    assert(x.re * x.im + (-x.im) * x.re == 0) by (nonlinear_arith);
}

/// Multiplication does not depend on the order of its factors.
pub proof fn lemma_times_commutes(x: Cx, y: Cx)
    ensures
        x.times(y) == y.times(x),
{
    assert(x.re * y.re - x.im * y.im == y.re * x.re - y.im * x.im) by (nonlinear_arith);
    assert(x.re * y.im + x.im * y.re == y.re * x.im + y.im * x.re) by (nonlinear_arith);
}

/// Multiplication does not depend on how its factors are grouped.
pub proof fn lemma_times_associates(x: Cx, y: Cx, z: Cx)
    ensures
        x.times(y).times(z) == x.times(y.times(z)),
{
    let a = x.re;
    let b = x.im;
    let c = y.re;
    let d = y.im;
    let e = z.re;
    let f = z.im;
    lemma_mul_is_associative(a, c, e);
    lemma_mul_is_associative(a, c, f);
    lemma_mul_is_associative(a, d, e);
    lemma_mul_is_associative(a, d, f);
    lemma_mul_is_associative(b, c, e);
    lemma_mul_is_associative(b, c, f);
    lemma_mul_is_associative(b, d, e);
    lemma_mul_is_associative(b, d, f);
    lemma_mul_is_distributive_sub_other_way(e, a * c, b * d);
    lemma_mul_is_distributive_add_other_way(f, a * d, b * c);
    lemma_mul_is_distributive_sub_other_way(f, a * c, b * d);
    lemma_mul_is_distributive_add_other_way(e, a * d, b * c);
    lemma_mul_is_distributive_sub(a, c * e, d * f);
    lemma_mul_is_distributive_add(b, c * f, d * e);
    lemma_mul_is_distributive_add(a, c * f, d * e);
    lemma_mul_is_distributive_sub(b, c * e, d * f);
}

/// Multiplication distributes over addition, on either side.
pub proof fn lemma_times_distributes(c: Cx, x: Cx, y: Cx)
    ensures
        c.times(x.plus(y)) == c.times(x).plus(c.times(y)),
        x.plus(y).times(c) == x.times(c).plus(y.times(c)),
{
    assert(c.re * (x.re + y.re) - c.im * (x.im + y.im) == (c.re * x.re - c.im * x.im) + (c.re
        * y.re - c.im * y.im)) by (nonlinear_arith);
    assert(c.re * (x.im + y.im) + c.im * (x.re + y.re) == (c.re * x.im + c.im * x.re) + (c.re
        * y.im + c.im * y.re)) by (nonlinear_arith);
    assert((x.re + y.re) * c.re - (x.im + y.im) * c.im == (x.re * c.re - x.im * c.im) + (y.re
        * c.re - y.im * c.im)) by (nonlinear_arith);
    assert((x.re + y.re) * c.im + (x.im + y.im) * c.re == (x.re * c.im + x.im * c.re) + (y.re
        * c.im + y.im * c.re)) by (nonlinear_arith);
}

/// The conjugate of a product is the product of the conjugates.
pub proof fn lemma_conj_times(x: Cx, y: Cx)
    ensures
        x.times(y).conj() == x.conj().times(y.conj()),
{
    assert(x.re * y.re - x.im * y.im == x.re * y.re - (-x.im) * (-y.im)) by (nonlinear_arith);
    assert(-(x.re * y.im + x.im * y.re) == x.re * (-y.im) + (-x.im) * y.re) by (nonlinear_arith);
}

/// A square is nonnegative and no larger than the square of a bound on its root.
pub proof fn lemma_square_bound(x: int, limit: int)
    by (nonlinear_arith)
    requires
        -limit <= x <= limit,
    ensures
        0 <= x * x <= limit * limit,
{
}

/// A product is bounded by the product of bounds on its factors.
pub proof fn lemma_product_bound(x: int, y: int, a: int, b: int)
    by (nonlinear_arith)
    requires
        -a <= x <= a,
        -b <= y <= b,
    ensures
        -(a * b) <= x * y <= a * b,
{
}

} // verus!
