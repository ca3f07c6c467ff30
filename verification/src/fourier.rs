//! The discrete Fourier operator over the amplitudes.
//!
//! Entry `(k, j)` of the operator on `n` amplitudes is the `n`-th root of
//! unity `e^(2πi/n)` raised to `k·j`, over `√n`. For registers of up to two
//! qubits those roots are powers of `i`, so the operator is an exact gate.

use vstd::prelude::*;
use vstd::arithmetic::power2::{pow2, lemma2_to64};
use crate::complex::Cx;
use crate::gate::{GateModel, row_overlap, col_overlap, diagonal};
use crate::sums::sum_to;

verus! {

/// The largest register whose Fourier operator has exact entries.
pub const MAX_FOURIER_QUBITS: u32 = 2;

/// The exponent of the root of unity in entry `(k, j)` of the operator on
/// `n` amplitudes: `k·j` reduced modulo `n`.
pub open spec fn phase(n: nat, k: nat, j: nat) -> nat {
    (k * j) % n
}

/// `i` raised to `e`.
pub open spec fn unit_power(e: int) -> Cx {
    if e % 4 == 0 {
        Cx { re: 1, im: 0 }
    } else if e % 4 == 1 {
        Cx { re: 0, im: 1 }
    } else if e % 4 == 2 {
        Cx { re: -1, im: 0 }
    } else {
        Cx { re: 0, im: -1 }
    }
}

/// The power of `i` that equals `e^(2πi/n)` raised to `e`, for `n` one, two
/// or four: `e^(2πi/n)` is `i` raised to `4/n`.
pub open spec fn quarter_turns(n: int, e: int) -> int {
    if n == 4 {
        e
    } else if n == 2 {
        2 * e
    } else {
        0
    }
}

/// The numerator of entry `(k, j)` of the operator on `n` amplitudes, for
/// `n` one, two or four.
pub open spec fn fourier_entry(n: int, k: int, j: int) -> Cx {
    unit_power(quarter_turns(n, (k * j) % n))
}

/// The Fourier operator on a register of `num_qubits`: the numerators
/// above, over `(√2)^num_qubits`, which is `√n`.
pub open spec fn fourier_model(num_qubits: nat) -> GateModel {
    GateModel {
        rows: Seq::new(
            pow2(num_qubits),
            |k: int| Seq::new(pow2(num_qubits), |j: int| fourier_entry(pow2(num_qubits) as int, k, j)),
        ),
        sqrt2_exp: num_qubits,
    }
}

/// Computes `phase(n, k, j)`.
pub fn fourier_phase(n: usize, k: usize, j: usize) -> (e: usize)
    requires
        n >= 1,
    ensures
        e == phase(n as nat, k as nat, j as nat),
        e < n,
{
    assert(0 <= k * j <= 0xffff_ffff_ffff_ffff * 0xffff_ffff_ffff_ffff) by (nonlinear_arith)
        requires
            0 <= k <= 0xffff_ffff_ffff_ffff,
            0 <= j <= 0xffff_ffff_ffff_ffff,
    ;
    let product: u128 = (k as u128) * (j as u128);
    (product % (n as u128)) as usize
}

/// On any number of amplitudes, the first row and the first column of the
/// operator hold the root of unity raised to zero, which is one: the
/// transform of the first basis state has the same value `1/√n` everywhere.
pub proof fn lemma_phase_of_first_row_and_column(n: nat, k: nat)
    requires
        n >= 1,
    ensures
        phase(n, k, 0) == 0,
        phase(n, 0, k) == 0,
{
    assert(k * 0 == 0 && 0 * k == 0) by (nonlinear_arith);
}

/// The operator is symmetric: entry `(k, j)` is entry `(j, k)`.
pub proof fn lemma_phase_is_symmetric(n: nat, k: nat, j: nat)
    ensures
        phase(n, k, j) == phase(n, j, k),
{
    assert(k * j == j * k) by (nonlinear_arith);
}

/// Powers of `i` multiply by adding exponents, and conjugation negates the
/// exponent.
proof fn lemma_unit_power_algebra(x: int, y: int)
    ensures
        unit_power(x).times(unit_power(y)) == unit_power(x + y),
        unit_power(x).conj() == unit_power(-x),
        unit_power(x).times(unit_power(y).conj()) == unit_power(x - y),
        unit_power(x).conj().times(unit_power(y)) == unit_power(y - x),
{
    let one = Cx { re: 1, im: 0 };
    let i = Cx { re: 0, im: 1 };
    let m = Cx { re: -1, im: 0 };
    let mi = Cx { re: 0, im: -1 };
    assert(one.times(one) == one && one.times(i) == i && one.times(m) == m && one.times(mi) == mi);
    assert(i.times(one) == i && i.times(i) == m && i.times(m) == mi && i.times(mi) == one);
    assert(m.times(one) == m && m.times(i) == mi && m.times(m) == one && m.times(mi) == i);
    assert(mi.times(one) == mi && mi.times(i) == one && mi.times(m) == i && mi.times(mi) == m);
    assert(one.conj() == one && i.conj() == mi && m.conj() == m && mi.conj() == i);
    let ux = unit_power(x);
    let uy = unit_power(y);
    let cx = unit_power(-x);
    let cy = unit_power(-y);
    assert(ux == one || ux == i || ux == m || ux == mi);
    assert(uy == one || uy == i || uy == m || uy == mi);
    assert(ux.conj() == cx && uy.conj() == cy);
    assert(ux.times(uy) == unit_power(x + y));
    assert(ux.times(cy) == unit_power(x - y));
    assert(cx.times(uy) == unit_power(y - x));
}

/// The entries of the operator on four amplitudes are the powers of `i`
/// named by the products of their indices.
proof fn lemma_fourier_entries_4(k: int, j: int)
    requires
        0 <= k < 4,
        0 <= j < 4,
    ensures
        fourier_entry(4, k, j) == unit_power(k * j),
{
    if k == 0 {
    } else if k == 1 {
    } else if k == 2 {
    } else {
    }
}

proof fn lemma_fourier_cell_2(g: GateModel, a: int, b: int)
    requires
        g.rows.len() == 2,
        forall|k: int| 0 <= k < 2 ==> (#[trigger] g.rows[k]).len() == 2,
        forall|k: int, j: int|
            0 <= k < 2 && 0 <= j < 2 ==> #[trigger] g.rows[k][j] == fourier_entry(2, k, j),
        0 <= a < 2,
        0 <= b < 2,
    ensures
        sum_to(2, row_overlap(g, a, b)) == diagonal(a, b, 2),
        sum_to(2, col_overlap(g, a, b)) == diagonal(a, b, 2),
{
    reveal_with_fuel(sum_to, 3);
    let r = row_overlap(g, a, b);
    let c = col_overlap(g, a, b);
    assert(g.rows[0][0] == fourier_entry(2, 0, 0) && g.rows[0][1] == fourier_entry(2, 0, 1));
    assert(g.rows[1][0] == fourier_entry(2, 1, 0) && g.rows[1][1] == fourier_entry(2, 1, 1));
    assert(g.rows[a][0] == unit_power(0) && g.rows[b][0] == unit_power(0));
    assert(g.rows[a][1] == unit_power(2 * a) && g.rows[b][1] == unit_power(2 * b));
    assert(g.rows[0][a] == unit_power(0) && g.rows[0][b] == unit_power(0));
    assert(g.rows[1][a] == unit_power(2 * a) && g.rows[1][b] == unit_power(2 * b));
    lemma_unit_power_algebra(0, 0);
    lemma_unit_power_algebra(2 * a, 2 * b);
    lemma_unit_power_algebra(2 * b, 2 * a);
    assert(r(0) == g.rows[a][0].times(g.rows[b][0].conj()));
    assert(r(1) == g.rows[a][1].times(g.rows[b][1].conj()));
    assert(c(0) == g.rows[0][a].conj().times(g.rows[0][b]));
    assert(c(1) == g.rows[1][a].conj().times(g.rows[1][b]));
    assert(r(0) == unit_power(0) && r(1) == unit_power(2 * a - 2 * b));
    assert(c(0) == unit_power(0) && c(1) == unit_power(2 * b - 2 * a));
}

proof fn lemma_fourier_cell_4(g: GateModel, a: int, b: int)
    requires
        g.rows.len() == 4,
        forall|k: int| 0 <= k < 4 ==> (#[trigger] g.rows[k]).len() == 4,
        forall|k: int, j: int|
            0 <= k < 4 && 0 <= j < 4 ==> #[trigger] g.rows[k][j] == fourier_entry(4, k, j),
        0 <= a < 4,
        0 <= b < 4,
    ensures
        sum_to(4, row_overlap(g, a, b)) == diagonal(a, b, 4),
        sum_to(4, col_overlap(g, a, b)) == diagonal(a, b, 4),
{
    reveal_with_fuel(sum_to, 5);
    let r = row_overlap(g, a, b);
    let c = col_overlap(g, a, b);
    assert forall|k: int, j: int| 0 <= k < 4 && 0 <= j < 4 implies #[trigger] g.rows[k][j]
        == unit_power(k * j) by {
        lemma_fourier_entries_4(k, j);
    }
    assert(g.rows[a][0] == unit_power(0) && g.rows[b][0] == unit_power(0));
    assert(g.rows[a][1] == unit_power(a) && g.rows[b][1] == unit_power(b));
    assert(g.rows[a][2] == unit_power(2 * a) && g.rows[b][2] == unit_power(2 * b)) by {
        assert(g.rows[a][2] == unit_power(a * 2));
        assert(g.rows[b][2] == unit_power(b * 2));
    }
    assert(g.rows[a][3] == unit_power(3 * a) && g.rows[b][3] == unit_power(3 * b)) by {
        assert(g.rows[a][3] == unit_power(a * 3));
        assert(g.rows[b][3] == unit_power(b * 3));
    }
    assert(g.rows[0][a] == unit_power(0) && g.rows[0][b] == unit_power(0));
    assert(g.rows[1][a] == unit_power(a) && g.rows[1][b] == unit_power(b));
    assert(g.rows[2][a] == unit_power(2 * a) && g.rows[2][b] == unit_power(2 * b));
    assert(g.rows[3][a] == unit_power(3 * a) && g.rows[3][b] == unit_power(3 * b));
    lemma_unit_power_algebra(0, 0);
    lemma_unit_power_algebra(a, b);
    lemma_unit_power_algebra(2 * a, 2 * b);
    lemma_unit_power_algebra(3 * a, 3 * b);
    assert(r(0) == g.rows[a][0].times(g.rows[b][0].conj()));
    assert(r(1) == g.rows[a][1].times(g.rows[b][1].conj()));
    assert(r(2) == g.rows[a][2].times(g.rows[b][2].conj()));
    assert(r(3) == g.rows[a][3].times(g.rows[b][3].conj()));
    assert(c(0) == g.rows[0][a].conj().times(g.rows[0][b]));
    assert(c(1) == g.rows[1][a].conj().times(g.rows[1][b]));
    assert(c(2) == g.rows[2][a].conj().times(g.rows[2][b]));
    assert(c(3) == g.rows[3][a].conj().times(g.rows[3][b]));
    assert(r(0) == unit_power(0) && r(1) == unit_power(a - b) && r(2) == unit_power(2 * a - 2 * b)
        && r(3) == unit_power(3 * a - 3 * b));
    assert(c(0) == unit_power(0) && c(1) == unit_power(b - a) && c(2) == unit_power(2 * b - 2 * a)
        && c(3) == unit_power(3 * b - 3 * a));
}

proof fn lemma_fourier_cell(g: GateModel, n: int, a: int, b: int)
    requires
        n == 1 || n == 2 || n == 4,
        g.rows.len() == n,
        forall|k: int| 0 <= k < n ==> (#[trigger] g.rows[k]).len() == n,
        forall|k: int, j: int|
            0 <= k < n && 0 <= j < n ==> #[trigger] g.rows[k][j] == fourier_entry(n, k, j),
        0 <= a < n,
        0 <= b < n,
    ensures
        sum_to(n as nat, row_overlap(g, a, b)) == diagonal(a, b, n),
        sum_to(n as nat, col_overlap(g, a, b)) == diagonal(a, b, n),
{
    reveal_with_fuel(sum_to, 5);
    let r = row_overlap(g, a, b);
    let c = col_overlap(g, a, b);
    if n == 1 {
        assert(g.rows[0][0] == fourier_entry(1, 0, 0));
        lemma_unit_power_algebra(0, 0);
        assert(r(0) == g.rows[a][0].times(g.rows[b][0].conj()));
        assert(c(0) == g.rows[0][a].conj().times(g.rows[0][b]));
    } else if n == 2 {
        lemma_fourier_cell_2(g, a, b);
    } else {
        lemma_fourier_cell_4(g, a, b);
    }
}

/// The Fourier operator on a register of up to two qubits is unitary.
pub proof fn lemma_fourier_unitary(num_qubits: nat)
    requires
        num_qubits <= MAX_FOURIER_QUBITS,
    ensures
        fourier_model(num_qubits).wf(),
        fourier_model(num_qubits).is_unitary(),
{
    let g = fourier_model(num_qubits);
    let n = g.dim();
    lemma2_to64();
    assert forall|a: int, b: int| 0 <= a < n && 0 <= b < n implies sum_to(
        n,
        #[trigger] row_overlap(g, a, b),
    ) == diagonal(a, b, pow2(g.sqrt2_exp) as int) by {
        lemma_fourier_cell(g, n as int, a, b);
    }
    assert forall|a: int, b: int| 0 <= a < n && 0 <= b < n implies sum_to(
        n,
        #[trigger] col_overlap(g, a, b),
    ) == diagonal(a, b, pow2(g.sqrt2_exp) as int) by {
        lemma_fourier_cell(g, n as int, a, b);
    }
}

} // verus!
