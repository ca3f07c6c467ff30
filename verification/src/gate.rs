//! Gates: square matrices of exact amplitudes.
//!
//! A gate stores Gaussian-integer numerators row by row and one exponent
//! `sqrt2_exp`; the operator it stands for is `rows / (√2)^sqrt2_exp`.

use vstd::prelude::*;
use vstd::arithmetic::power2::{pow2, lemma_pow2_unfold, lemma_pow2_strictly_increases, lemma2_to64, lemma2_to64_rest};
use crate::complex::{Cx, Gaussian, AMP_LIMIT, TERM_LIMIT};
use crate::sums::sum_to;

verus! {

/// The largest exponent of `1/√2` that a gate or a vector may carry.
pub const MAX_SQRT2_EXP: u32 = 60;

/// `2^k` for an exponent that a vector can carry.
pub fn power_of_two(k: u32) -> (p: u64)
    requires
        k <= MAX_SQRT2_EXP,
    ensures
        p == pow2(k as nat),
        1 <= p <= 0x1000_0000_0000_0000,
{
    let mut p: u64 = 1;
    let mut i: u32 = 0;
    proof {
        lemma2_to64();
        lemma2_to64_rest();
    }
    while i < k
        invariant
            i <= k <= MAX_SQRT2_EXP,
            p == pow2(i as nat),
            1 <= p <= 0x1000_0000_0000_0000,
            pow2(60) == 0x1000_0000_0000_0000,
        decreases k - i,
    {
        proof {
            lemma_pow2_unfold((i + 1) as nat);
            if i + 1 < 60 {
                lemma_pow2_strictly_increases((i + 1) as nat, 60);
            }
        }
        p = p * 2;
        i += 1;
    }
    p
}

/// A gate as a mathematical value.
pub struct GateModel {
    pub rows: Seq<Seq<Cx>>,
    pub sqrt2_exp: nat,
}

/// `c` on the diagonal, zero off it.
pub open spec fn diagonal(a: int, b: int, c: int) -> Cx {
    if a == b {
        Cx::from_int(c)
    } else {
        Cx::zero()
    }
}

/// The terms of the inner product of rows `a` and `b`.
pub open spec fn row_overlap(g: GateModel, a: int, b: int) -> spec_fn(int) -> Cx {
    |j: int| g.rows[a][j].times(g.rows[b][j].conj())
}

/// The terms of the inner product of columns `a` and `b`.
pub open spec fn col_overlap(g: GateModel, a: int, b: int) -> spec_fn(int) -> Cx {
    |i: int| g.rows[i][a].conj().times(g.rows[i][b])
}

impl GateModel {
    /// The number of rows.
    pub open spec fn dim(self) -> nat {
        self.rows.len()
    }

    /// The matrix is square and not empty, and every stored number is
    /// within its limit.
    pub open spec fn wf(self) -> bool {
        &&& self.rows.len() >= 1
        &&& forall|i: int|
            0 <= i < self.rows.len() ==> (#[trigger] self.rows[i]).len() == self.rows.len()
        &&& forall|i: int, j: int|
            0 <= i < self.rows.len() && 0 <= j < self.rows.len() ==> (#[trigger] self.rows[i][j]).within(
                AMP_LIMIT as int,
            )
        &&& self.sqrt2_exp <= MAX_SQRT2_EXP
    }

    /// The conjugate transpose.
    pub open spec fn adjoint(self) -> GateModel {
        GateModel {
            rows: Seq::new(
                self.dim(),
                |i: int| Seq::new(self.dim(), |j: int| self.rows[j][i].conj()),
            ),
            sqrt2_exp: self.sqrt2_exp,
        }
    }

    /// `U·U† = I`: the rows of the operator are orthonormal. Over the
    /// numerators, distinct rows have inner product zero and each row has
    /// squared length `2^sqrt2_exp`.
    pub open spec fn rows_orthonormal(self) -> bool {
        forall|a: int, b: int|
            0 <= a < self.dim() && 0 <= b < self.dim() ==> sum_to(
                self.dim(),
                #[trigger] row_overlap(self, a, b),
            ) == diagonal(a, b, pow2(self.sqrt2_exp) as int)
    }

    /// `U†·U = I`: the columns of the operator are orthonormal.
    pub open spec fn cols_orthonormal(self) -> bool {
        forall|a: int, b: int|
            0 <= a < self.dim() && 0 <= b < self.dim() ==> sum_to(
                self.dim(),
                #[trigger] col_overlap(self, a, b),
            ) == diagonal(a, b, pow2(self.sqrt2_exp) as int)
    }

    /// The conjugate transpose is the inverse.
    pub open spec fn is_unitary(self) -> bool {
        self.rows_orthonormal() && self.cols_orthonormal()
    }
}

/// The mathematical value of a stored row.
pub open spec fn row_model(row: Seq<Gaussian>) -> Seq<Cx> {
    Seq::new(row.len(), |j: int| row[j]@)
}

/// The mathematical value of stored rows.
pub open spec fn rows_model(rows: Seq<Vec<Gaussian>>) -> Seq<Seq<Cx>> {
    Seq::new(rows.len(), |i: int| row_model(rows[i]@))
}

/// An immutable square matrix of exact amplitudes.
pub struct Gate {
    rows: Vec<Vec<Gaussian>>,
    sqrt2_exp: u32,
}

impl View for Gate {
    type V = GateModel;

    closed spec fn view(&self) -> GateModel {
        GateModel { rows: rows_model(self.rows@), sqrt2_exp: self.sqrt2_exp as nat }
    }
}

impl Gate {
    /// The stored matrix is square and within its limits.
    pub open spec fn wf(&self) -> bool {
        self@.wf()
    }

    /// Builds a gate from its rows, or returns `None` when the rows do not
    /// form a square matrix of at least one row, a component exceeds
    /// `AMP_LIMIT`, or the exponent exceeds `MAX_SQRT2_EXP`.
    pub fn from_rows(rows: Vec<Vec<Gaussian>>, sqrt2_exp: u32) -> (r: Option<Gate>)
        ensures
            r is Some <==> (GateModel { rows: rows_model(rows@), sqrt2_exp: sqrt2_exp as nat }).wf(),
            r matches Some(g) ==> g@ == (GateModel {
                rows: rows_model(rows@),
                sqrt2_exp: sqrt2_exp as nat,
            }),
    {
        let ghost model = GateModel { rows: rows_model(rows@), sqrt2_exp: sqrt2_exp as nat };
        let n = rows.len();
        if n == 0 || sqrt2_exp > MAX_SQRT2_EXP {
            return None;
        }
        let mut i: usize = 0;
        while i < n
            invariant
                n == rows.len(),
                i <= n,
                model == (GateModel { rows: rows_model(rows@), sqrt2_exp: sqrt2_exp as nat }),
                forall|a: int| 0 <= a < i ==> (#[trigger] model.rows[a]).len() == n,
                forall|a: int, b: int|
                    0 <= a < i && 0 <= b < n ==> (#[trigger] model.rows[a][b]).within(
                        AMP_LIMIT as int,
                    ),
            decreases n - i,
        {
            let row = &rows[i];
            if row.len() != n {
                assert(model.rows[i as int].len() != n);
                return None;
            }
            let mut j: usize = 0;
            while j < n
                invariant
                    n == rows.len(),
                    i < n,
                    j <= n,
                    row == &rows[i as int],
                    row.len() == n,
                    model == (GateModel { rows: rows_model(rows@), sqrt2_exp: sqrt2_exp as nat }),
                    forall|b: int|
                        0 <= b < j ==> (#[trigger] model.rows[i as int][b]).within(AMP_LIMIT as int),
                decreases n - j,
            {
                if !row[j].fits() {
                    assert(!model.rows[i as int][j as int].within(AMP_LIMIT as int));
                    return None;
                }
                j += 1;
            }
            i += 1;
        }
        Some(Gate { rows, sqrt2_exp })
    }

    /// Builds a gate from rows that are known to form a well-formed matrix.
    pub(crate) fn assemble(rows: Vec<Vec<Gaussian>>, sqrt2_exp: u32) -> (g: Gate)
        requires
            (GateModel { rows: rows_model(rows@), sqrt2_exp: sqrt2_exp as nat }).wf(),
        ensures
            g@ == (GateModel { rows: rows_model(rows@), sqrt2_exp: sqrt2_exp as nat }),
            g.wf(),
    {
        Gate { rows, sqrt2_exp }
    }

    /// The conjugate transpose, which for a unitary gate is its inverse.
    pub fn adjoint(&self) -> (g: Gate)
        requires
            self.wf(),
        ensures
            g@ == self@.adjoint(),
            g.wf(),
    {
        let n = self.rows.len();
        let mut rows: Vec<Vec<Gaussian>> = Vec::new();
        let mut i: usize = 0;
        while i < n
            invariant
                self.wf(),
                n == self.rows.len(),
                i <= n,
                rows.len() == i,
                forall|x: int| 0 <= x < i ==> (#[trigger] rows[x])@.len() == n,
                forall|x: int, y: int|
                    0 <= x < i && 0 <= y < n ==> (#[trigger] rows[x]@[y])@
                        == self@.rows[y][x].conj(),
            decreases n - i,
        {
            let mut row: Vec<Gaussian> = Vec::new();
            let mut j: usize = 0;
            while j < n
                invariant
                    self.wf(),
                    n == self.rows.len(),
                    i < n,
                    j <= n,
                    row.len() == j,
                    forall|y: int|
                        0 <= y < j ==> (#[trigger] row[y])@ == self@.rows[y][i as int].conj(),
                decreases n - j,
            {
                let e = self.entry(j, i);
                row.push(e.conj());
                j += 1;
            }
            rows.push(row);
            i += 1;
        }
        let ghost model = GateModel { rows: rows_model(rows@), sqrt2_exp: self.sqrt2_exp as nat };
        proof {
            assert forall|x: int, y: int| 0 <= x < n && 0 <= y < n implies #[trigger] model.rows[x][y]
                == self@.rows[y][x].conj() by {
                assert(model.rows[x] == row_model(rows[x]@));
                assert(rows[x]@[y]@ == self@.rows[y][x].conj());
            }
            assert forall|x: int, y: int| 0 <= x < n && 0 <= y < n implies (#[trigger] model.rows[x][y]).within(
                AMP_LIMIT as int,
            ) by {
                assert(self@.rows[y][x].within(AMP_LIMIT as int));
            }
            assert(model.rows =~~= self@.adjoint().rows);
        }
        Gate { rows, sqrt2_exp: self.sqrt2_exp }
    }

    /// The inner product of rows `a` and `b` of the numerators.
    fn row_overlap_sum(&self, a: usize, b: usize) -> (p: (i128, i128))
        requires
            self.wf(),
            a < self@.dim(),
            b < self@.dim(),
        ensures
            sum_to(self@.dim(), row_overlap(self@, a as int, b as int)) == (Cx {
                re: p.0 as int,
                im: p.1 as int,
            }),
    {
        let n = self.rows.len();
        let ghost f = row_overlap(self@, a as int, b as int);
        let mut re: i128 = 0;
        let mut im: i128 = 0;
        let mut j: usize = 0;
        while j < n
            invariant
                self.wf(),
                n == self@.dim(),
                a < n,
                b < n,
                j <= n,
                f == row_overlap(self@, a as int, b as int),
                sum_to(j as nat, f) == (Cx { re: re as int, im: im as int }),
                -(j * TERM_LIMIT) <= re <= j * TERM_LIMIT,
                -(j * TERM_LIMIT) <= im <= j * TERM_LIMIT,
            decreases n - j,
        {
            let x = self.entry(a, j);
            let y = self.entry(b, j).conj();
            let term = x.times(&y);
            assert(f(j as int) == x@.times(y@));
            re = re + term.0;
            im = im + term.1;
            j += 1;
        }
        (re, im)
    }

    /// The inner product of columns `a` and `b` of the numerators.
    fn col_overlap_sum(&self, a: usize, b: usize) -> (p: (i128, i128))
        requires
            self.wf(),
            a < self@.dim(),
            b < self@.dim(),
        ensures
            sum_to(self@.dim(), col_overlap(self@, a as int, b as int)) == (Cx {
                re: p.0 as int,
                im: p.1 as int,
            }),
    {
        let n = self.rows.len();
        let ghost f = col_overlap(self@, a as int, b as int);
        let mut re: i128 = 0;
        let mut im: i128 = 0;
        let mut i: usize = 0;
        while i < n
            invariant
                self.wf(),
                n == self@.dim(),
                a < n,
                b < n,
                i <= n,
                f == col_overlap(self@, a as int, b as int),
                sum_to(i as nat, f) == (Cx { re: re as int, im: im as int }),
                -(i * TERM_LIMIT) <= re <= i * TERM_LIMIT,
                -(i * TERM_LIMIT) <= im <= i * TERM_LIMIT,
            decreases n - i,
        {
            let x = self.entry(i, a).conj();
            let y = self.entry(i, b);
            let term = x.times(&y);
            assert(f(i as int) == x@.times(y@));
            re = re + term.0;
            im = im + term.1;
            i += 1;
        }
        (re, im)
    }

    /// Tells whether this gate is unitary: whether its conjugate transpose
    /// is its inverse.
    pub fn is_unitary(&self) -> (ok: bool)
        requires
            self.wf(),
        ensures
            ok == self@.is_unitary(),
    {
        let n = self.rows.len();
        let unit: i128 = power_of_two(self.sqrt2_exp) as i128;
        let mut a: usize = 0;
        while a < n
            invariant
                self.wf(),
                n == self@.dim(),
                a <= n,
                unit == pow2(self@.sqrt2_exp),
                forall|x: int, y: int|
                    0 <= x < a && 0 <= y < n ==> sum_to(
                        n as nat,
                        #[trigger] row_overlap(self@, x, y),
                    ) == diagonal(x, y, unit as int),
                forall|x: int, y: int|
                    0 <= x < a && 0 <= y < n ==> sum_to(
                        n as nat,
                        #[trigger] col_overlap(self@, x, y),
                    ) == diagonal(x, y, unit as int),
            decreases n - a,
        {
            let mut b: usize = 0;
            while b < n
                invariant
                    self.wf(),
                    n == self@.dim(),
                    a < n,
                    b <= n,
                    unit == pow2(self@.sqrt2_exp),
                    forall|y: int|
                        0 <= y < b ==> sum_to(
                            n as nat,
                            #[trigger] row_overlap(self@, a as int, y),
                        ) == diagonal(a as int, y, unit as int),
                    forall|y: int|
                        0 <= y < b ==> sum_to(
                            n as nat,
                            #[trigger] col_overlap(self@, a as int, y),
                        ) == diagonal(a as int, y, unit as int),
                decreases n - b,
            {
                let rows = self.row_overlap_sum(a, b);
                let cols = self.col_overlap_sum(a, b);
                let want: i128 = if a == b {
                    unit
                } else {
                    0
                };
                if rows.0 != want || rows.1 != 0 {
                    assert(sum_to(n as nat, row_overlap(self@, a as int, b as int)) != diagonal(
                        a as int,
                        b as int,
                        unit as int,
                    ));
                    return false;
                }
                if cols.0 != want || cols.1 != 0 {
                    assert(sum_to(n as nat, col_overlap(self@, a as int, b as int)) != diagonal(
                        a as int,
                        b as int,
                        unit as int,
                    ));
                    return false;
                }
                b += 1;
            }
            a += 1;
        }
        true
    }

    /// The number of rows, which is the number of columns.
    pub fn dim(&self) -> (n: usize)
        ensures
            n == self@.dim(),
    {
        self.rows.len()
    }

    /// The exponent `k` of the common factor `1/(√2)^k`.
    pub fn sqrt2_exp(&self) -> (k: u32)
        ensures
            k == self@.sqrt2_exp,
    {
        self.sqrt2_exp
    }

    /// Row `i` of the numerators.
    pub fn row(&self, i: usize) -> (r: &Vec<Gaussian>)
        requires
            i < self@.dim(),
        ensures
            row_model(r@) == self@.rows[i as int],
    {
        &self.rows[i]
    }

    /// The numerator in row `i`, column `j`.
    pub fn entry(&self, i: usize, j: usize) -> (g: Gaussian)
        requires
            self.wf(),
            i < self@.dim(),
            j < self@.dim(),
        ensures
            g@ == self@.rows[i as int][j as int],
            g.in_range(),
    {
        assert(self@.rows[i as int].len() == self@.dim());
        let g = self.rows[i][j];
        assert(g@ == self@.rows[i as int][j as int]);
        g
    }
}

} // verus!
