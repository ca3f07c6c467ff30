//! The library of gates: Hadamard, Pauli-X, Pauli-Z and CNOT on chosen qubits
//! of a register of any supported size, each proved unitary.

use vstd::prelude::*;
use vstd::arithmetic::power2::{pow2, lemma2_to64, lemma_pow2_pos, lemma_pow2_strictly_increases};
use vstd::bits::lemma_usize_shl_is_mul;
use crate::complex::{Cx, Gaussian, AMP_LIMIT, lemma_times_zero, lemma_times_conj};
use crate::fourier::{MAX_FOURIER_QUBITS, fourier_entry, fourier_model, lemma_fourier_unitary};
use crate::gate::{Gate, GateModel, MAX_SQRT2_EXP, row_overlap, col_overlap, diagonal, rows_model, row_model};
use crate::qubits::{MAX_QUBITS, has_bit, flip_bit, lemma_flip_bit, lemma_flip_keeps_other_bits, dimension, bit_is_set, with_bit_flipped};
use crate::sums::{sum_to, lemma_sum_ext, lemma_sum_zero, lemma_sum_single, lemma_sum_pair};

verus! {

/// Row `a`, column `j` of the Hadamard gate on qubit `target`, over `√2`:
/// the block `[[1, 1], [1, -1]]` on each pair of basis states that differ
/// in that qubit alone.
pub open spec fn hadamard_entry(target: usize, a: int, j: int) -> Cx {
    if j == a {
        if has_bit(a as usize, target) {
            Cx::from_int(-1)
        } else {
            Cx::one()
        }
    } else if j == flip_bit(a as usize, target) {
        Cx::one()
    } else {
        Cx::zero()
    }
}

/// Row `a`, column `j` of the Pauli-X gate on qubit `target`: one where `j`
/// is `a` with that qubit flipped.
pub open spec fn pauli_x_entry(target: usize, a: int, j: int) -> Cx {
    if j == flip_bit(a as usize, target) {
        Cx::one()
    } else {
        Cx::zero()
    }
}

/// Row `a`, column `j` of the Pauli-Z gate on qubit `target`: diagonal,
/// with `-1` where that qubit is one.
pub open spec fn pauli_z_entry(target: usize, a: int, j: int) -> Cx {
    if j != a {
        Cx::zero()
    } else if has_bit(a as usize, target) {
        Cx::from_int(-1)
    } else {
        Cx::one()
    }
}

/// Where CNOT sends basis state `a`: the target qubit is flipped where the
/// control qubit is one.
pub open spec fn cnot_image(control: usize, target: usize, a: int) -> int {
    if has_bit(a as usize, control) {
        flip_bit(a as usize, target) as int
    } else {
        a
    }
}

/// Row `a`, column `j` of the CNOT gate.
pub open spec fn cnot_entry(control: usize, target: usize, a: int, j: int) -> Cx {
    if j == cnot_image(control, target, a) {
        Cx::one()
    } else {
        Cx::zero()
    }
}

/// The Hadamard gate on qubit `target` of a register of `num_qubits`.
pub open spec fn hadamard_model(num_qubits: nat, target: nat) -> GateModel {
    GateModel {
        rows: Seq::new(
            pow2(num_qubits),
            |a: int| Seq::new(pow2(num_qubits), |j: int| hadamard_entry(target as usize, a, j)),
        ),
        sqrt2_exp: 1,
    }
}

/// The Pauli-X gate on qubit `target` of a register of `num_qubits`.
pub open spec fn pauli_x_model(num_qubits: nat, target: nat) -> GateModel {
    GateModel {
        rows: Seq::new(
            pow2(num_qubits),
            |a: int| Seq::new(pow2(num_qubits), |j: int| pauli_x_entry(target as usize, a, j)),
        ),
        sqrt2_exp: 0,
    }
}

/// The Pauli-Z gate on qubit `target` of a register of `num_qubits`.
pub open spec fn pauli_z_model(num_qubits: nat, target: nat) -> GateModel {
    GateModel {
        rows: Seq::new(
            pow2(num_qubits),
            |a: int| Seq::new(pow2(num_qubits), |j: int| pauli_z_entry(target as usize, a, j)),
        ),
        sqrt2_exp: 0,
    }
}

/// The CNOT gate with the given control and target qubits of a register of
/// `num_qubits`.
pub open spec fn cnot_model(num_qubits: nat, control: nat, target: nat) -> GateModel {
    GateModel {
        rows: Seq::new(
            pow2(num_qubits),
            |a: int|
                Seq::new(
                    pow2(num_qubits),
                    |j: int| cnot_entry(control as usize, target as usize, a, j),
                ),
        ),
        sqrt2_exp: 0,
    }
}

/// The identity on a register of `num_qubits`.
pub open spec fn identity_model(num_qubits: nat) -> GateModel {
    GateModel {
        rows: Seq::new(
            pow2(num_qubits),
            |a: int| Seq::new(pow2(num_qubits), |j: int| diagonal(a, j, 1)),
        ),
        sqrt2_exp: 0,
    }
}

/// A supported register has between one and 1024 basis states, and the
/// shift that computes their number agrees with the power of two.
pub proof fn lemma_dimension(num_qubits: nat)
    requires
        num_qubits <= MAX_QUBITS,
    ensures
        pow2(num_qubits) == (1usize << (num_qubits as usize)),
        1 <= pow2(num_qubits) <= 1024,
{
    lemma2_to64();
    if num_qubits < 10 {
        lemma_pow2_strictly_increases(num_qubits, 10);
    }
    lemma_pow2_pos(num_qubits);
    lemma_usize_shl_is_mul(1usize, num_qubits as usize);
}

/// A matrix with one entry of magnitude one in each row, no two of them in
/// the same column, has orthonormal rows.
pub proof fn lemma_permutation_rows(g: GateModel, image: spec_fn(int) -> int)
    requires
        g.wf(),
        g.sqrt2_exp == 0,
        forall|a: int| 0 <= a < g.dim() ==> 0 <= #[trigger] image(a) < g.dim(),
        forall|a: int, b: int|
            0 <= a < g.dim() && 0 <= b < g.dim() && a != b ==> #[trigger] image(a) != #[trigger] image(
                b,
            ),
        forall|a: int, j: int|
            0 <= a < g.dim() && 0 <= j < g.dim() && j != image(a) ==> #[trigger] g.rows[a][j]
                == Cx::zero(),
        forall|a: int| 0 <= a < g.dim() ==> (#[trigger] g.rows[a][image(a)]).norm_sq() == 1,
    ensures
        g.rows_orthonormal(),
{
    let n = g.dim();
    lemma2_to64();
    assert forall|a: int, b: int| 0 <= a < n && 0 <= b < n implies sum_to(
        n,
        #[trigger] row_overlap(g, a, b),
    ) == diagonal(a, b, pow2(g.sqrt2_exp) as int) by {
        let f = row_overlap(g, a, b);
        if a == b {
            assert forall|j: int| 0 <= j < n && j != image(a) implies #[trigger] f(j)
                == Cx::zero() by {
                assert(g.rows[a][j] == Cx::zero());
                lemma_times_zero(g.rows[b][j].conj());
            }
            lemma_sum_single(n, f, image(a));
            lemma_times_conj(g.rows[a][image(a)]);
        } else {
            assert forall|j: int| 0 <= j < n implies #[trigger] f(j) == Cx::zero() by {
                if j != image(a) {
                    assert(g.rows[a][j] == Cx::zero());
                    lemma_times_zero(g.rows[b][j].conj());
                } else {
                    assert(image(a) != image(b));
                    assert(g.rows[b][j] == Cx::zero());
                    lemma_times_zero(g.rows[a][j]);
                }
            }
            lemma_sum_zero(n, f);
        }
    }
}

/// For a real symmetric matrix, orthonormal rows make orthonormal columns.
pub proof fn lemma_real_symmetric_columns(g: GateModel)
    requires
        g.wf(),
        g.rows_orthonormal(),
        forall|a: int, j: int|
            0 <= a < g.dim() && 0 <= j < g.dim() ==> (#[trigger] g.rows[a][j]).im == 0
                && g.rows[a][j] == g.rows[j][a],
    ensures
        g.cols_orthonormal(),
{
    let n = g.dim();
    assert forall|a: int, b: int| 0 <= a < n && 0 <= b < n implies sum_to(
        n,
        #[trigger] col_overlap(g, a, b),
    ) == diagonal(a, b, pow2(g.sqrt2_exp) as int) by {
        let f = col_overlap(g, a, b);
        let h = row_overlap(g, a, b);
        assert forall|i: int| 0 <= i < n implies #[trigger] f(i) == h(i) by {
            assert(g.rows[i][a].im == 0 && g.rows[i][a] == g.rows[a][i]);
            assert(g.rows[i][b].im == 0 && g.rows[i][b] == g.rows[b][i]);
            assert(g.rows[a][i].conj() == g.rows[a][i]);
            assert(g.rows[b][i].conj() == g.rows[b][i]);
        }
        lemma_sum_ext(n, f, h);
    }
}

/// The Pauli-X gate on any qubit of a supported register is unitary.
pub proof fn lemma_pauli_x_unitary(num_qubits: nat, target: nat)
    requires
        target < num_qubits <= MAX_QUBITS,
    ensures
        pauli_x_model(num_qubits, target).wf(),
        pauli_x_model(num_qubits, target).is_unitary(),
{
    let g = pauli_x_model(num_qubits, target);
    let n = g.dim();
    let t = target as usize;
    lemma_dimension(num_qubits);
    let image = |a: int| flip_bit(a as usize, t) as int;
    assert forall|a: int| 0 <= a < n implies 0 <= #[trigger] image(a) < n && image(image(a)) == a by {
        lemma_flip_bit(a as usize, t, num_qubits as usize);
    }
    assert forall|a: int, b: int| 0 <= a < n && 0 <= b < n && a != b implies #[trigger] image(a)
        != #[trigger] image(b) by {
        assert(image(image(a)) == a);
        assert(image(image(b)) == b);
    }
    lemma_permutation_rows(g, image);
    assert forall|a: int, j: int| 0 <= a < n && 0 <= j < n implies (#[trigger] g.rows[a][j]).im
        == 0 && g.rows[a][j] == g.rows[j][a] by {
        assert(image(image(a)) == a);
        assert(image(image(j)) == j);
    }
    lemma_real_symmetric_columns(g);
}

/// The Pauli-Z gate on any qubit of a supported register is unitary.
pub proof fn lemma_pauli_z_unitary(num_qubits: nat, target: nat)
    requires
        target < num_qubits <= MAX_QUBITS,
    ensures
        pauli_z_model(num_qubits, target).wf(),
        pauli_z_model(num_qubits, target).is_unitary(),
{
    let g = pauli_z_model(num_qubits, target);
    lemma_dimension(num_qubits);
    let image = |a: int| a;
    lemma_permutation_rows(g, image);
    lemma_real_symmetric_columns(g);
}

/// The CNOT gate on any two distinct qubits of a supported register is
/// unitary.
pub proof fn lemma_cnot_unitary(num_qubits: nat, control: nat, target: nat)
    requires
        control < num_qubits,
        target < num_qubits,
        control != target,
        num_qubits <= MAX_QUBITS,
    ensures
        cnot_model(num_qubits, control, target).wf(),
        cnot_model(num_qubits, control, target).is_unitary(),
{
    let g = cnot_model(num_qubits, control, target);
    let n = g.dim();
    let c = control as usize;
    let t = target as usize;
    lemma_dimension(num_qubits);
    let image = |a: int| cnot_image(c, t, a);
    assert forall|a: int| 0 <= a < n implies 0 <= #[trigger] image(a) < n && image(image(a)) == a by {
        lemma_flip_bit(a as usize, t, num_qubits as usize);
        lemma_flip_keeps_other_bits(a as usize, t, c);
    }
    assert forall|a: int, b: int| 0 <= a < n && 0 <= b < n && a != b implies #[trigger] image(a)
        != #[trigger] image(b) by {
        assert(image(image(a)) == a);
        assert(image(image(b)) == b);
    }
    lemma_permutation_rows(g, image);
    assert forall|a: int, j: int| 0 <= a < n && 0 <= j < n implies (#[trigger] g.rows[a][j]).im
        == 0 && g.rows[a][j] == g.rows[j][a] by {
        assert(image(image(a)) == a);
        assert(image(image(j)) == j);
    }
    lemma_real_symmetric_columns(g);
}

/// The identity on a supported register is unitary.
pub proof fn lemma_identity_unitary(num_qubits: nat)
    requires
        num_qubits <= MAX_QUBITS,
    ensures
        identity_model(num_qubits).wf(),
        identity_model(num_qubits).is_unitary(),
{
    let g = identity_model(num_qubits);
    lemma_dimension(num_qubits);
    let image = |a: int| a;
    lemma_permutation_rows(g, image);
    lemma_real_symmetric_columns(g);
}

/// The Hadamard gate on any qubit of a supported register is unitary.
pub proof fn lemma_hadamard_unitary(num_qubits: nat, target: nat)
    requires
        target < num_qubits <= MAX_QUBITS,
    ensures
        hadamard_model(num_qubits, target).wf(),
        hadamard_model(num_qubits, target).is_unitary(),
{
    let g = hadamard_model(num_qubits, target);
    let n = g.dim();
    let t = target as usize;
    lemma_dimension(num_qubits);
    lemma2_to64();
    let flip = |a: int| flip_bit(a as usize, t) as int;
    assert forall|a: int| 0 <= a < n implies 0 <= #[trigger] flip(a) < n && flip(flip(a)) == a
        && flip(a) != a && has_bit(flip(a) as usize, t) == !has_bit(a as usize, t) by {
        lemma_flip_bit(a as usize, t, num_qubits as usize);
    }
    assert forall|a: int, b: int| 0 <= a < n && 0 <= b < n implies sum_to(
        n,
        #[trigger] row_overlap(g, a, b),
    ) == diagonal(a, b, pow2(g.sqrt2_exp) as int) by {
        let f = row_overlap(g, a, b);
        let fa = flip(a);
        let fb = flip(b);
        assert(0 <= fa < n && flip(fa) == a && fa != a);
        assert(0 <= fb < n && flip(fb) == b && fb != b);
        assert(has_bit(fa as usize, t) == !has_bit(a as usize, t));
        let sign_a = hadamard_entry(t, a, a);
        let sign_b = hadamard_entry(t, b, b);
        assert(g.rows[a][a] == sign_a && g.rows[a][fa] == Cx::one());
        assert(g.rows[b][b] == sign_b && g.rows[b][fb] == Cx::one());
        assert(sign_a == Cx::one() || sign_a == Cx::from_int(-1));
        assert(sign_b == Cx::one() || sign_b == Cx::from_int(-1));
        if a == b || b == fa {
            let p = if a < fa { a } else { fa };
            let q = if a < fa { fa } else { a };
            assert forall|j: int| 0 <= j < n && j != p && j != q implies #[trigger] f(j)
                == Cx::zero() by {
                assert(g.rows[a][j] == hadamard_entry(t, a, j));
                lemma_times_zero(g.rows[b][j].conj());
            }
            lemma_sum_pair(n, f, p, q);
            assert(f(a) == g.rows[a][a].times(g.rows[b][a].conj()));
            assert(f(fa) == g.rows[a][fa].times(g.rows[b][fa].conj()));
            if a == b {
                lemma_times_conj(sign_a);
                assert(f(a) == Cx::one());
                assert(f(fa) == Cx::one());
            } else {
                assert(g.rows[b][a] == Cx::one());
                assert(f(a) == sign_a);
                assert(f(fa) == sign_b.conj());
                assert(sign_a.plus(sign_b.conj()) == Cx::zero());
            }
        } else {
            assert forall|j: int| 0 <= j < n implies #[trigger] f(j) == Cx::zero() by {
                assert(g.rows[a][j] == hadamard_entry(t, a, j));
                assert(g.rows[b][j] == hadamard_entry(t, b, j));
                if j == a || j == fa {
                    assert(g.rows[b][j] == Cx::zero());
                    lemma_times_zero(g.rows[a][j]);
                } else {
                    assert(g.rows[a][j] == Cx::zero());
                    lemma_times_zero(g.rows[b][j].conj());
                }
            }
            lemma_sum_zero(n, f);
        }
    }
    assert forall|a: int, j: int| 0 <= a < n && 0 <= j < n implies (#[trigger] g.rows[a][j]).im
        == 0 && g.rows[a][j] == g.rows[j][a] by {
        assert(flip(flip(a)) == a);
        assert(flip(flip(j)) == j);
    }
    lemma_real_symmetric_columns(g);
}

/// The shape of a library gate: which entry stands where.
#[derive(Clone, Copy)]
enum Pattern {
    Identity,
    Hadamard { target: u32 },
    PauliX { target: u32 },
    PauliZ { target: u32 },
    Cnot { control: u32, target: u32 },
    Fourier { modulus: usize },
}

impl Pattern {
    spec fn valid(self) -> bool {
        match self {
            Pattern::Identity => true,
            Pattern::Hadamard { target } => target <= MAX_QUBITS,
            Pattern::PauliX { target } => target <= MAX_QUBITS,
            Pattern::PauliZ { target } => target <= MAX_QUBITS,
            Pattern::Cnot { control, target } => control <= MAX_QUBITS && target <= MAX_QUBITS,
            Pattern::Fourier { modulus } => modulus == 1 || modulus == 2 || modulus == 4,
        }
    }

    spec fn entry(self, a: int, j: int) -> Cx {
        match self {
            Pattern::Identity => diagonal(a, j, 1),
            Pattern::Hadamard { target } => hadamard_entry(target as usize, a, j),
            Pattern::PauliX { target } => pauli_x_entry(target as usize, a, j),
            Pattern::PauliZ { target } => pauli_z_entry(target as usize, a, j),
            Pattern::Cnot { control, target } => cnot_entry(
                control as usize,
                target as usize,
                a,
                j,
            ),
            Pattern::Fourier { modulus } => fourier_entry(modulus as int, a, j),
        }
    }

    spec fn model(self, n: nat, sqrt2_exp: nat) -> GateModel {
        GateModel {
            rows: Seq::new(n, |a: int| Seq::new(n, |j: int| self.entry(a, j))),
            sqrt2_exp,
        }
    }

    /// The entry in row `a`, column `j`.
    fn entry_at(&self, a: usize, j: usize) -> (g: Gaussian)
        requires
            self.valid(),
            a < 1024,
            j < 1024,
        ensures
            g@ == self.entry(a as int, j as int),
            g@.within(1),
    {
        match *self {
            Pattern::Identity => {
                if a == j {
                    Gaussian::one()
                } else {
                    Gaussian::zero()
                }
            },
            Pattern::Hadamard { target } => {
                if j == a {
                    if bit_is_set(a, target) {
                        Gaussian::new(-1, 0)
                    } else {
                        Gaussian::one()
                    }
                } else if j == with_bit_flipped(a, target) {
                    Gaussian::one()
                } else {
                    Gaussian::zero()
                }
            },
            Pattern::PauliX { target } => {
                if j == with_bit_flipped(a, target) {
                    Gaussian::one()
                } else {
                    Gaussian::zero()
                }
            },
            Pattern::PauliZ { target } => {
                if j != a {
                    Gaussian::zero()
                } else if bit_is_set(a, target) {
                    Gaussian::new(-1, 0)
                } else {
                    Gaussian::one()
                }
            },
            Pattern::Cnot { control, target } => {
                let image = if bit_is_set(a, control) {
                    with_bit_flipped(a, target)
                } else {
                    a
                };
                if j == image {
                    Gaussian::one()
                } else {
                    Gaussian::zero()
                }
            },
            Pattern::Fourier { modulus } => {
                assert(0 <= a * j <= 1024 * 1024) by (nonlinear_arith)
                    requires
                        0 <= a < 1024,
                        0 <= j < 1024,
                ;
                let e = (a * j) % modulus;
                let turns = if modulus == 4 {
                    e
                } else if modulus == 2 {
                    2 * e
                } else {
                    0
                };
                if turns % 4 == 0 {
                    Gaussian::new(1, 0)
                } else if turns % 4 == 1 {
                    Gaussian::new(0, 1)
                } else if turns % 4 == 2 {
                    Gaussian::new(-1, 0)
                } else {
                    Gaussian::new(0, -1)
                }
            },
        }
    }
}

/// Writes out the `n` by `n` matrix of a pattern.
fn tabulate(n: usize, pattern: Pattern, sqrt2_exp: u32) -> (g: Gate)
    requires
        1 <= n <= 1024,
        pattern.valid(),
        sqrt2_exp <= MAX_SQRT2_EXP,
    ensures
        g@ == pattern.model(n as nat, sqrt2_exp as nat),
        g.wf(),
{
    let mut rows: Vec<Vec<Gaussian>> = Vec::new();
    let mut a: usize = 0;
    while a < n
        invariant
            a <= n <= 1024,
            pattern.valid(),
            rows.len() == a,
            forall|x: int| 0 <= x < a ==> (#[trigger] rows[x])@.len() == n,
            forall|x: int, y: int|
                0 <= x < a && 0 <= y < n ==> (#[trigger] rows[x]@[y])@ == pattern.entry(x, y),
        decreases n - a,
    {
        let mut row: Vec<Gaussian> = Vec::new();
        let mut j: usize = 0;
        while j < n
            invariant
                a < n <= 1024,
                j <= n,
                pattern.valid(),
                row.len() == j,
                forall|y: int| 0 <= y < j ==> (#[trigger] row[y])@ == pattern.entry(a as int, y),
            decreases n - j,
        {
            row.push(pattern.entry_at(a, j));
            j += 1;
        }
        rows.push(row);
        a += 1;
    }
    let ghost model = GateModel { rows: rows_model(rows@), sqrt2_exp: sqrt2_exp as nat };
    proof {
        assert forall|x: int, y: int| 0 <= x < n && 0 <= y < n implies (#[trigger] model.rows[x][y])
            == pattern.entry(x, y) by {
            assert(model.rows[x] == row_model(rows[x]@));
            assert(rows[x]@[y]@ == pattern.entry(x, y));
        }
        assert forall|x: int, y: int| 0 <= x < n && 0 <= y < n implies (#[trigger] model.rows[x][y]).within(
            AMP_LIMIT as int,
        ) by {
            assert(model.rows[x][y] == pattern.entry(x, y));
        }
        assert(model.rows =~~= pattern.model(n as nat, sqrt2_exp as nat).rows);
    }
    Gate::assemble(rows, sqrt2_exp)
}

/// The identity on a register of `num_qubits`, or `None` when the register
/// is larger than `MAX_QUBITS`.
pub fn identity_gate(num_qubits: u32) -> (r: Option<Gate>)
    ensures
        r is Some <==> num_qubits <= MAX_QUBITS,
        r matches Some(g) ==> g@ == identity_model(num_qubits as nat) && g.wf() && g@.is_unitary(),
{
    if num_qubits > MAX_QUBITS {
        return None;
    }
    let n = dimension(num_qubits);
    let g = tabulate(n, Pattern::Identity, 0);
    proof {
        lemma_identity_unitary(num_qubits as nat);
        assert(g@.rows =~~= identity_model(num_qubits as nat).rows);
    }
    Some(g)
}

/// The Fourier operator on a register of `num_qubits`, or `None` when the
/// register has more than `MAX_FOURIER_QUBITS` qubits: its entries are then
/// no Gaussian integers over a power of `√2`.
pub fn fourier_gate(num_qubits: u32) -> (r: Option<Gate>)
    ensures
        r is Some <==> num_qubits <= MAX_FOURIER_QUBITS,
        r matches Some(g) ==> g@ == fourier_model(num_qubits as nat) && g.wf() && g@.is_unitary(),
{
    if num_qubits > MAX_FOURIER_QUBITS {
        return None;
    }
    let n = dimension(num_qubits);
    proof {
        lemma2_to64();
    }
    let g = tabulate(n, Pattern::Fourier { modulus: n }, num_qubits);
    proof {
        lemma_fourier_unitary(num_qubits as nat);
        assert(g@.rows =~~= fourier_model(num_qubits as nat).rows);
    }
    Some(g)
}

/// The Hadamard gate on qubit `target` of a register of `num_qubits`, or
/// `None` when the register is larger than `MAX_QUBITS` or has no such
/// qubit.
pub fn hadamard_gate(num_qubits: u32, target: u32) -> (r: Option<Gate>)
    ensures
        r is Some <==> target < num_qubits <= MAX_QUBITS,
        r matches Some(g) ==> g@ == hadamard_model(num_qubits as nat, target as nat) && g.wf()
            && g@.is_unitary(),
{
    if num_qubits > MAX_QUBITS || target >= num_qubits {
        return None;
    }
    let n = dimension(num_qubits);
    let g = tabulate(n, Pattern::Hadamard { target }, 1);
    proof {
        lemma_hadamard_unitary(num_qubits as nat, target as nat);
        assert(g@.rows =~~= hadamard_model(num_qubits as nat, target as nat).rows);
    }
    Some(g)
}

/// The Pauli-X gate on qubit `target` of a register of `num_qubits`, or
/// `None` when the register is larger than `MAX_QUBITS` or has no such
/// qubit.
pub fn pauli_x_gate(num_qubits: u32, target: u32) -> (r: Option<Gate>)
    ensures
        r is Some <==> target < num_qubits <= MAX_QUBITS,
        r matches Some(g) ==> g@ == pauli_x_model(num_qubits as nat, target as nat) && g.wf()
            && g@.is_unitary(),
{
    if num_qubits > MAX_QUBITS || target >= num_qubits {
        return None;
    }
    let n = dimension(num_qubits);
    let g = tabulate(n, Pattern::PauliX { target }, 0);
    proof {
        lemma_pauli_x_unitary(num_qubits as nat, target as nat);
        assert(g@.rows =~~= pauli_x_model(num_qubits as nat, target as nat).rows);
    }
    Some(g)
}

/// The Pauli-Z gate on qubit `target` of a register of `num_qubits`, or
/// `None` when the register is larger than `MAX_QUBITS` or has no such
/// qubit.
pub fn pauli_z_gate(num_qubits: u32, target: u32) -> (r: Option<Gate>)
    ensures
        r is Some <==> target < num_qubits <= MAX_QUBITS,
        r matches Some(g) ==> g@ == pauli_z_model(num_qubits as nat, target as nat) && g.wf()
            && g@.is_unitary(),
{
    if num_qubits > MAX_QUBITS || target >= num_qubits {
        return None;
    }
    let n = dimension(num_qubits);
    let g = tabulate(n, Pattern::PauliZ { target }, 0);
    proof {
        lemma_pauli_z_unitary(num_qubits as nat, target as nat);
        assert(g@.rows =~~= pauli_z_model(num_qubits as nat, target as nat).rows);
    }
    Some(g)
}

/// The CNOT gate with the given control and target qubits of a register of
/// `num_qubits`, or `None` when the register is larger than `MAX_QUBITS`,
/// lacks one of the qubits, or control and target are the same qubit.
pub fn cnot_gate(num_qubits: u32, control: u32, target: u32) -> (r: Option<Gate>)
    ensures
        r is Some <==> control < num_qubits && target < num_qubits && control != target
            && num_qubits <= MAX_QUBITS,
        r matches Some(g) ==> g@ == cnot_model(
            num_qubits as nat,
            control as nat,
            target as nat,
        ) && g.wf() && g@.is_unitary(),
{
    if num_qubits > MAX_QUBITS || control >= num_qubits || target >= num_qubits || control
        == target {
        return None;
    }
    let n = dimension(num_qubits);
    let g = tabulate(n, Pattern::Cnot { control, target }, 0);
    proof {
        lemma_cnot_unitary(num_qubits as nat, control as nat, target as nat);
        assert(g@.rows =~~= cnot_model(num_qubits as nat, control as nat, target as nat).rows);
    }
    Some(g)
}

} // verus!
