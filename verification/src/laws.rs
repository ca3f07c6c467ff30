//! What holds of the simulator as a whole: how the library gates act on a
//! vector, which of them undo themselves, and what unitary gates preserve.

use vstd::prelude::*;
use vstd::arithmetic::power2::{pow2, lemma2_to64, lemma_pow2_adds, lemma_pow2_pos, lemma_pow2_unfold};
use crate::complex::{Cx, AMP_LIMIT, lemma_times_one, lemma_times_minus_one, lemma_times_zero, lemma_times_conj, lemma_times_commutes, lemma_times_associates, lemma_conj_times};
use crate::fourier::{MAX_FOURIER_QUBITS, fourier_model, fourier_entry, lemma_fourier_unitary};
use crate::gate::{GateModel, row_overlap, col_overlap, diagonal};
use crate::measure::{MeasurementOutcome, DRAW_RANGE};
use crate::library::{pauli_x_model, pauli_z_model, cnot_model, cnot_image, lemma_dimension};
use crate::qubits::{MAX_QUBITS, has_bit, flip_bit, lemma_flip_bit};
use crate::state::{StateModel, apply_model, apply_outcome, weight_sum};
use crate::sums::{sum_to, dot_term, table_row, table_col, row_sums, col_sums, lemma_dot_single, lemma_dot_picks, lemma_sum_ext, lemma_sum_single, lemma_sum_factor_left, lemma_sum_factor_right, lemma_sum_conj, lemma_sum_swap};

verus! {

/// Pauli-X on qubit `target` moves each amplitude to the basis state with
/// that qubit flipped. The application always succeeds.
pub proof fn lemma_pauli_x_action(num_qubits: nat, target: nat, v: StateModel)
    requires
        target < num_qubits <= MAX_QUBITS,
        v.wf(),
        v.len() == pow2(num_qubits),
    ensures
        apply_model(pauli_x_model(num_qubits, target), v).wf(),
        apply_outcome(pauli_x_model(num_qubits, target), v) is Ok,
        apply_model(pauli_x_model(num_qubits, target), v).sqrt2_exp == v.sqrt2_exp,
        apply_model(pauli_x_model(num_qubits, target), v).len() == v.len(),
        forall|a: int|
            0 <= a < v.len() ==> #[trigger] apply_model(
                pauli_x_model(num_qubits, target),
                v,
            ).amps[a] == v.amps[flip_bit(a as usize, target as usize) as int],
{
    let g = pauli_x_model(num_qubits, target);
    let w = apply_model(g, v);
    let t = target as usize;
    lemma_dimension(num_qubits);
    assert forall|a: int| 0 <= a < v.len() implies #[trigger] w.amps[a] == v.amps[flip_bit(
        a as usize,
        t,
    ) as int] by {
        lemma_flip_bit(a as usize, t, num_qubits as usize);
        let p = flip_bit(a as usize, t) as int;
        lemma_dot_single(g.rows[a], v.amps, p);
        lemma_times_one(v.amps[p]);
    }
    assert forall|a: int| 0 <= a < w.amps.len() implies (#[trigger] w.amps[a]).within(
        AMP_LIMIT as int,
    ) by {
        lemma_flip_bit(a as usize, t, num_qubits as usize);
        assert(v.amps[flip_bit(a as usize, t) as int].within(AMP_LIMIT as int));
    }
    lemma_wf_is_storable(w);
}

/// Pauli-Z on qubit `target` negates the amplitudes of the basis states in
/// which that qubit is one and leaves the others. The application always
/// succeeds.
pub proof fn lemma_pauli_z_action(num_qubits: nat, target: nat, v: StateModel)
    requires
        target < num_qubits <= MAX_QUBITS,
        v.wf(),
        v.len() == pow2(num_qubits),
    ensures
        apply_model(pauli_z_model(num_qubits, target), v).wf(),
        apply_outcome(pauli_z_model(num_qubits, target), v) is Ok,
        apply_model(pauli_z_model(num_qubits, target), v).sqrt2_exp == v.sqrt2_exp,
        apply_model(pauli_z_model(num_qubits, target), v).len() == v.len(),
        forall|a: int|
            0 <= a < v.len() ==> #[trigger] apply_model(
                pauli_z_model(num_qubits, target),
                v,
            ).amps[a] == (if has_bit(a as usize, target as usize) {
                v.amps[a].neg()
            } else {
                v.amps[a]
            }),
{
    let g = pauli_z_model(num_qubits, target);
    let w = apply_model(g, v);
    let t = target as usize;
    lemma_dimension(num_qubits);
    assert forall|a: int| 0 <= a < v.len() implies #[trigger] w.amps[a] == (if has_bit(
        a as usize,
        t,
    ) {
        v.amps[a].neg()
    } else {
        v.amps[a]
    }) by {
        lemma_dot_single(g.rows[a], v.amps, a);
        lemma_times_one(v.amps[a]);
        lemma_times_minus_one(v.amps[a]);
    }
    assert forall|a: int| 0 <= a < w.amps.len() implies (#[trigger] w.amps[a]).within(
        AMP_LIMIT as int,
    ) by {
        assert(v.amps[a].within(AMP_LIMIT as int));
    }
    lemma_wf_is_storable(w);
}

/// CNOT moves each amplitude to the basis state with the target qubit
/// flipped where the control qubit is one. The application always succeeds.
pub proof fn lemma_cnot_action(num_qubits: nat, control: nat, target: nat, v: StateModel)
    requires
        control < num_qubits,
        target < num_qubits,
        control != target,
        num_qubits <= MAX_QUBITS,
        v.wf(),
        v.len() == pow2(num_qubits),
    ensures
        apply_model(cnot_model(num_qubits, control, target), v).wf(),
        apply_outcome(cnot_model(num_qubits, control, target), v) is Ok,
        apply_model(cnot_model(num_qubits, control, target), v).sqrt2_exp == v.sqrt2_exp,
        apply_model(cnot_model(num_qubits, control, target), v).len() == v.len(),
        forall|a: int|
            0 <= a < v.len() ==> #[trigger] apply_model(
                cnot_model(num_qubits, control, target),
                v,
            ).amps[a] == v.amps[cnot_image(control as usize, target as usize, a)],
{
    let g = cnot_model(num_qubits, control, target);
    let w = apply_model(g, v);
    let c = control as usize;
    let t = target as usize;
    lemma_dimension(num_qubits);
    assert forall|a: int| 0 <= a < v.len() implies #[trigger] w.amps[a] == v.amps[cnot_image(
        c,
        t,
        a,
    )] by {
        lemma_flip_bit(a as usize, t, num_qubits as usize);
        let p = cnot_image(c, t, a);
        lemma_dot_single(g.rows[a], v.amps, p);
        lemma_times_one(v.amps[p]);
    }
    assert forall|a: int| 0 <= a < w.amps.len() implies (#[trigger] w.amps[a]).within(
        AMP_LIMIT as int,
    ) by {
        lemma_flip_bit(a as usize, t, num_qubits as usize);
        assert(v.amps[cnot_image(c, t, a)].within(AMP_LIMIT as int));
    }
    lemma_wf_is_storable(w);
}

/// Applying Pauli-X twice to any vector gives the vector back, exactly.
pub proof fn lemma_pauli_x_involution(num_qubits: nat, target: nat, v: StateModel)
    requires
        target < num_qubits <= MAX_QUBITS,
        v.wf(),
        v.len() == pow2(num_qubits),
    ensures
        apply_model(pauli_x_model(num_qubits, target), v).wf(),
        apply_outcome(pauli_x_model(num_qubits, target), v) is Ok,
        apply_outcome(
            pauli_x_model(num_qubits, target),
            apply_model(pauli_x_model(num_qubits, target), v),
        ) is Ok,
        apply_model(
            pauli_x_model(num_qubits, target),
            apply_model(pauli_x_model(num_qubits, target), v),
        ) == v,
{
    let g = pauli_x_model(num_qubits, target);
    let w = apply_model(g, v);
    let u = apply_model(g, w);
    let t = target as usize;
    lemma_dimension(num_qubits);
    lemma_pauli_x_action(num_qubits, target, v);
    lemma_pauli_x_action(num_qubits, target, w);
    assert forall|a: int| 0 <= a < v.len() implies #[trigger] u.amps[a] == v.amps[a] by {
        lemma_flip_bit(a as usize, t, num_qubits as usize);
        let p = flip_bit(a as usize, t) as int;
        assert(u.amps[a] == w.amps[p]);
        assert(w.amps[p] == v.amps[flip_bit(p as usize, t) as int]);
    }
    assert(u.amps =~= v.amps);
}

/// Applying Pauli-Z twice to any vector gives the vector back, exactly.
pub proof fn lemma_pauli_z_involution(num_qubits: nat, target: nat, v: StateModel)
    requires
        target < num_qubits <= MAX_QUBITS,
        v.wf(),
        v.len() == pow2(num_qubits),
    ensures
        apply_model(pauli_z_model(num_qubits, target), v).wf(),
        apply_outcome(pauli_z_model(num_qubits, target), v) is Ok,
        apply_outcome(
            pauli_z_model(num_qubits, target),
            apply_model(pauli_z_model(num_qubits, target), v),
        ) is Ok,
        apply_model(
            pauli_z_model(num_qubits, target),
            apply_model(pauli_z_model(num_qubits, target), v),
        ) == v,
{
    let g = pauli_z_model(num_qubits, target);
    let w = apply_model(g, v);
    let u = apply_model(g, w);
    lemma_pauli_z_action(num_qubits, target, v);
    lemma_pauli_z_action(num_qubits, target, w);
    assert forall|a: int| 0 <= a < v.len() implies #[trigger] u.amps[a] == v.amps[a] by {
        assert(w.amps[a] == v.amps[a] || w.amps[a] == v.amps[a].neg());
        assert(v.amps[a].neg().neg() == v.amps[a]);
    }
    assert(u.amps =~= v.amps);
}

/// Applying a gate with orthonormal columns and then its conjugate
/// transpose gives the vector back: the same amplitudes, written with more
/// factors of `1/√2`.
pub proof fn lemma_adjoint_undoes(g: GateModel, v: StateModel)
    requires
        g.wf(),
        g.cols_orthonormal(),
        v.len() == g.dim(),
    ensures
        apply_model(g.adjoint(), apply_model(g, v)) == v.rescaled(g.sqrt2_exp),
{
    let n = g.dim();
    let adj = g.adjoint();
    let w = apply_model(g, v);
    let u = apply_model(adj, w);
    let scale = Cx::from_int(pow2(g.sqrt2_exp) as int);
    assert forall|i: int| 0 <= i < n implies #[trigger] u.amps[i] == scale.times(v.amps[i]) by {
        let table = |j: int, l: int| g.rows[j][i].conj().times(g.rows[j][l].times(v.amps[l]));
        let outer = dot_term(adj.rows[i], w.amps);
        assert(adj.rows[i].len() == n);
        assert forall|j: int| 0 <= j < n implies #[trigger] outer(j) == row_sums(table, n)(j) by {
            let c = g.rows[j][i].conj();
            let inner = dot_term(g.rows[j], v.amps);
            assert(g.rows[j].len() == n);
            assert(adj.rows[i][j] == c);
            assert(w.amps[j] == sum_to(n, inner));
            assert forall|l: int| 0 <= l < n implies #[trigger] table_row(table, j)(l) == c.times(
                inner(l),
            ) by {}
            lemma_sum_factor_left(n, c, inner, table_row(table, j));
        }
        lemma_sum_ext(n, outer, row_sums(table, n));
        lemma_sum_swap(n, n, table);
        let cols = col_sums(table, n);
        assert forall|l: int| 0 <= l < n implies #[trigger] cols(l) == diagonal(
            i,
            l,
            pow2(g.sqrt2_exp) as int,
        ).times(v.amps[l]) by {
            let overlap = col_overlap(g, i, l);
            assert forall|j: int| 0 <= j < n implies #[trigger] table_col(table, l)(j) == overlap(
                j,
            ).times(v.amps[l]) by {
                lemma_times_associates(g.rows[j][i].conj(), g.rows[j][l], v.amps[l]);
            }
            lemma_sum_factor_right(n, v.amps[l], overlap, table_col(table, l));
        }
        assert forall|l: int| 0 <= l < n && l != i implies #[trigger] cols(l) == Cx::zero() by {
            lemma_times_zero(v.amps[l]);
        }
        lemma_sum_single(n, cols, i);
    }
    assert(u.amps =~= v.rescaled(g.sqrt2_exp).amps);
}

/// The terms of the inner product of two vectors.
pub open spec fn inner_term(x: Seq<Cx>, y: Seq<Cx>) -> spec_fn(int) -> Cx {
    |i: int| x[i].conj().times(y[i])
}

/// The sum of the squared magnitudes of a vector is its inner product with
/// itself, which is real.
pub proof fn lemma_weight_is_inner(x: Seq<Cx>, n: nat)
    ensures
        sum_to(n, inner_term(x, x)) == Cx::from_int(weight_sum(x, n)),
    decreases n,
{
    if n > 0 {
        lemma_weight_is_inner(x, (n - 1) as nat);
        lemma_times_conj(x[n - 1]);
    }
}

/// A gate with orthonormal columns preserves the total probability: the
/// weights of the product sum to `2^sqrt2_exp` times those of the vector,
/// which is what the added factors of `1/√2` take away again.
pub proof fn lemma_unitary_preserves_norm(g: GateModel, v: StateModel)
    requires
        g.wf(),
        g.cols_orthonormal(),
        v.len() == g.dim(),
    ensures
        apply_model(g, v).total_weight() == pow2(g.sqrt2_exp) * v.total_weight(),
        v.is_normalized() ==> apply_model(g, v).is_normalized(),
{
    let n = g.dim();
    let adj = g.adjoint();
    let w = apply_model(g, v);
    let u = apply_model(adj, w);
    let scale = Cx::from_int(pow2(g.sqrt2_exp) as int);
    lemma_adjoint_undoes(g, v);
    assert(u == v.rescaled(g.sqrt2_exp));
    // <w, w> == <v, u>
    let table = |l: int, i: int| v.amps[l].conj().times(g.rows[i][l].conj().times(w.amps[i]));
    let left = inner_term(v.amps, u.amps);
    assert forall|l: int| 0 <= l < n implies #[trigger] left(l) == row_sums(table, n)(l) by {
        let c = v.amps[l].conj();
        let inner = dot_term(adj.rows[l], w.amps);
        assert(adj.rows[l].len() == n);
        assert(u.amps[l] == sum_to(n, inner));
        assert forall|i: int| 0 <= i < n implies #[trigger] table_row(table, l)(i) == c.times(
            inner(i),
        ) by {
            assert(adj.rows[l][i] == g.rows[i][l].conj());
        }
        lemma_sum_factor_left(n, c, inner, table_row(table, l));
    }
    lemma_sum_ext(n, left, row_sums(table, n));
    lemma_sum_swap(n, n, table);
    let cols = col_sums(table, n);
    let right = inner_term(w.amps, w.amps);
    assert forall|i: int| 0 <= i < n implies #[trigger] cols(i) == right(i) by {
        let products = dot_term(g.rows[i], v.amps);
        let conjugates = |l: int| v.amps[l].conj().times(g.rows[i][l].conj());
        assert(g.rows[i].len() == n);
        assert(w.amps[i] == sum_to(n, products));
        assert forall|l: int| 0 <= l < n implies #[trigger] conjugates(l) == products(l).conj() by {
            lemma_conj_times(g.rows[i][l], v.amps[l]);
            lemma_times_commutes(g.rows[i][l].conj(), v.amps[l].conj());
        }
        lemma_sum_conj(n, products, conjugates);
        assert forall|l: int| 0 <= l < n implies #[trigger] table_col(table, i)(l) == conjugates(
            l,
        ).times(w.amps[i]) by {
            lemma_times_associates(v.amps[l].conj(), g.rows[i][l].conj(), w.amps[i]);
        }
        lemma_sum_factor_right(n, w.amps[i], conjugates, table_col(table, i));
    }
    lemma_sum_ext(n, cols, right);
    assert(sum_to(n, right) == sum_to(n, left));
    // <v, u> == scale * <v, v>
    let own = inner_term(v.amps, v.amps);
    assert forall|l: int| 0 <= l < n implies #[trigger] left(l) == scale.times(own(l)) by {
        let a = v.amps[l];
        assert(u.amps[l] == scale.times(a));
        lemma_times_associates(a.conj(), scale, a);
        lemma_times_commutes(a.conj(), scale);
        lemma_times_associates(scale, a.conj(), a);
    }
    lemma_sum_factor_left(n, scale, own, left);
    lemma_weight_is_inner(v.amps, n);
    lemma_weight_is_inner(w.amps, n);
    let total = v.total_weight();
    assert(scale.times(Cx::from_int(total)).re == pow2(g.sqrt2_exp) * total);
    if v.is_normalized() {
        lemma_pow2_adds(g.sqrt2_exp, v.sqrt2_exp);
    }
}

/// The conjugate transpose of a unitary gate is unitary.
pub proof fn lemma_adjoint_unitary(g: GateModel)
    requires
        g.wf(),
        g.is_unitary(),
    ensures
        g.adjoint().wf(),
        g.adjoint().is_unitary(),
{
    let n = g.dim();
    let adj = g.adjoint();
    assert forall|i: int, j: int| 0 <= i < n && 0 <= j < n implies (#[trigger] adj.rows[i][j]).within(
        AMP_LIMIT as int,
    ) by {
        assert(g.rows[j][i].within(AMP_LIMIT as int));
    }
    assert forall|a: int, b: int| 0 <= a < n && 0 <= b < n implies sum_to(
        n,
        #[trigger] row_overlap(adj, a, b),
    ) == diagonal(a, b, pow2(adj.sqrt2_exp) as int) by {
        assert forall|j: int| 0 <= j < n implies #[trigger] row_overlap(adj, a, b)(j)
            == col_overlap(g, a, b)(j) by {
            assert(g.rows[j][b].conj().conj() == g.rows[j][b]);
        }
        lemma_sum_ext(n, row_overlap(adj, a, b), col_overlap(g, a, b));
    }
    assert forall|a: int, b: int| 0 <= a < n && 0 <= b < n implies sum_to(
        n,
        #[trigger] col_overlap(adj, a, b),
    ) == diagonal(a, b, pow2(adj.sqrt2_exp) as int) by {
        assert forall|i: int| 0 <= i < n implies #[trigger] col_overlap(adj, a, b)(i)
            == row_overlap(g, a, b)(i) by {
            assert(g.rows[a][i].conj().conj() == g.rows[a][i]);
        }
        lemma_sum_ext(n, col_overlap(adj, a, b), row_overlap(g, a, b));
    }
}

/// The Fourier transform of the first basis state is uniform: every
/// numerator is one, over `(√2)^num_qubits`, so every amplitude has
/// magnitude `1/√n` on `n` amplitudes.
pub proof fn lemma_fourier_of_first_basis_state(num_qubits: nat)
    requires
        num_qubits <= MAX_FOURIER_QUBITS,
    ensures
        apply_model(fourier_model(num_qubits), StateModel::basis(pow2(num_qubits), 0)).wf(),
        apply_outcome(
            fourier_model(num_qubits),
            StateModel::basis(pow2(num_qubits), 0),
        ) is Ok,
        apply_model(fourier_model(num_qubits), StateModel::basis(pow2(num_qubits), 0)).sqrt2_exp
            == num_qubits,
        apply_model(fourier_model(num_qubits), StateModel::basis(pow2(num_qubits), 0)).len()
            == pow2(num_qubits),
        forall|a: int|
            0 <= a < pow2(num_qubits) ==> #[trigger] apply_model(
                fourier_model(num_qubits),
                StateModel::basis(pow2(num_qubits), 0),
            ).amps[a] == Cx::one(),
{
    let g = fourier_model(num_qubits);
    let n = pow2(num_qubits);
    let v = StateModel::basis(n, 0);
    let w = apply_model(g, v);
    lemma2_to64();
    lemma_fourier_unitary(num_qubits);
    assert forall|a: int| 0 <= a < n implies #[trigger] w.amps[a] == Cx::one() by {
        lemma_dot_picks(g.rows[a], v.amps, 0);
        assert(g.rows[a][0] == fourier_entry(n as int, a, 0));
        lemma_times_one(g.rows[a][0]);
    }
    lemma_wf_is_storable(w);
}

/// The Fourier transform followed by its inverse, the conjugate transpose,
/// gives the vector back: the same amplitudes, written with `2·num_qubits`
/// more factors of `1/√2`.
pub proof fn lemma_fourier_round_trip(num_qubits: nat, v: StateModel)
    requires
        num_qubits <= MAX_FOURIER_QUBITS,
        v.len() == pow2(num_qubits),
    ensures
        apply_model(
            fourier_model(num_qubits).adjoint(),
            apply_model(fourier_model(num_qubits), v),
        ) == v.rescaled(num_qubits),
{
    lemma_fourier_unitary(num_qubits);
    lemma_adjoint_undoes(fourier_model(num_qubits), v);
}

/// The weights of a basis state add up to one from its index on, and to
/// zero before.
pub proof fn lemma_basis_weights(n: nat, index: int, m: nat)
    requires
        0 <= index < n,
        m <= n,
    ensures
        weight_sum(StateModel::basis(n, index).amps, m) == (if m > index {
            1int
        } else {
            0int
        }),
    decreases m,
{
    if m > 0 {
        lemma_basis_weights(n, index, (m - 1) as nat);
    }
}

/// Sampling a basis state gives that basis state, whatever the draw, with
/// probability one.
pub proof fn lemma_basis_state_is_certain(n: nat, index: int, draw: int, r: MeasurementOutcome)
    requires
        0 <= index < n,
        0 <= draw < DRAW_RANGE,
        StateModel::basis(n, index).is_outcome(draw, r),
    ensures
        r.index == index,
        r.weight == 1,
        r.sqrt2_exp == 0,
{
    let v = StateModel::basis(n, index);
    lemma2_to64();
    assert(draw * pow2(0) == draw) by (nonlinear_arith)
        requires
            pow2(0) == 1,
    ;
    assert forall|j: int| 0 <= j < n implies v.reached(draw, j) == (j >= index) by {
        lemma_basis_weights(n, index, (j + 1) as nat);
    }
    assert(v.reached(draw, index));
    if r.index < index {
        assert(!v.reached(draw, r.index as int));
    }
    if r.index > index {
        assert(v.reached(draw, index));
    }
}

/// Measuring again right after a measurement gives the same basis state
/// with probability one: the first measurement left the vector in that
/// basis state.
pub proof fn lemma_measurement_repeats(
    v: StateModel,
    first_draw: int,
    first: MeasurementOutcome,
    second_draw: int,
    second: MeasurementOutcome,
)
    requires
        v.wf(),
        0 <= first_draw < DRAW_RANGE,
        0 <= second_draw < DRAW_RANGE,
        v.is_outcome(first_draw, first),
        StateModel::basis(v.len(), first.index as int).is_outcome(second_draw, second),
    ensures
        second.index == first.index,
        second.weight == 1,
        second.sqrt2_exp == 0,
{
    lemma_basis_state_is_certain(v.len(), first.index as int, second_draw, second);
}

/// The numerators of a rescaled vector are the numerators of the vector
/// times the power of two.
pub proof fn lemma_rescaled_entry(v: StateModel, m: nat, i: int)
    requires
        0 <= i < v.len(),
    ensures
        v.rescaled(m).len() == v.len(),
        v.rescaled(m).amps[i].re == pow2(m) * v.amps[i].re,
        v.rescaled(m).amps[i].im == pow2(m) * v.amps[i].im,
{
    let c = Cx::from_int(pow2(m) as int);
    let x = v.amps[i];
    assert(v.rescaled(m).amps[i] == c.times(x));
    assert(c.im * x.im == 0 && c.im * x.re == 0) by (nonlinear_arith)
        requires
            c.im == 0,
    ;
}

/// Rescaling by no factor at all changes nothing.
pub proof fn lemma_rescaled_zero(v: StateModel)
    ensures
        v.rescaled(0) == v,
{
    lemma2_to64();
    assert forall|i: int| 0 <= i < v.len() implies #[trigger] v.rescaled(0).amps[i]
        == v.amps[i] by {
        lemma_rescaled_entry(v, 0, i);
    }
    assert(v.rescaled(0).amps =~= v.amps);
}

/// A vector within the limits can be stored: it stands for itself.
pub proof fn lemma_wf_is_storable(v: StateModel)
    requires
        v.wf(),
    ensures
        v.storable(),
        v.is_form_of(v),
{
    lemma_rescaled_zero(v);
}

/// A vector that equals another one written with more factors of `1/√2`
/// is not reduced.
proof fn lemma_rescaled_further(a: StateModel, b: StateModel, m1: nat, m2: nat)
    requires
        m1 < m2,
        a.rescaled(m1) == b.rescaled(m2),
    ensures
        !a.is_reduced(),
{
    let d = (m2 - m1) as nat;
    let low = pow2(m1) as int;
    let pd = pow2(d) as int;
    let half = pow2((d - 1) as nat) as int;
    lemma_pow2_adds(m1, d);
    lemma_pow2_pos(m1);
    lemma_pow2_unfold(d);
    assert(a.amps.len() == b.amps.len()) by {
        assert(a.rescaled(m1).amps.len() == a.amps.len());
        assert(b.rescaled(m2).amps.len() == b.amps.len());
    }
    assert forall|i: int| 0 <= i < a.amps.len() implies (#[trigger] a.amps[i]).re % 2 == 0
        && a.amps[i].im % 2 == 0 by {
        let x = a.amps[i];
        let y = b.amps[i];
        lemma_rescaled_entry(a, m1, i);
        lemma_rescaled_entry(b, m2, i);
        assert(low * x.re == (low * pd) * y.re);
        assert(low * x.im == (low * pd) * y.im);
        assert(x.re == 2 * (half * y.re)) by (nonlinear_arith)
            requires
                low > 0,
                pd == 2 * half,
                low * x.re == (low * pd) * y.re,
        ;
        assert(x.im == 2 * (half * y.im)) by (nonlinear_arith)
            requires
                low > 0,
                pd == 2 * half,
                low * x.im == (low * pd) * y.im,
        ;
    }
}

/// Two reduced vectors that stand for the same amplitudes are equal: the
/// reduced form of a vector is unique.
pub proof fn lemma_reduced_form_is_unique(a: StateModel, b: StateModel, m1: nat, m2: nat)
    requires
        a.is_reduced(),
        b.is_reduced(),
        a.rescaled(m1) == b.rescaled(m2),
    ensures
        a == b,
{
    if m1 < m2 {
        lemma_rescaled_further(a, b, m1, m2);
    } else if m2 < m1 {
        lemma_rescaled_further(b, a, m2, m1);
    } else {
        let p = pow2(m1) as int;
        lemma_pow2_pos(m1);
        assert(a.amps.len() == b.amps.len()) by {
            assert(a.rescaled(m1).amps.len() == a.amps.len());
            assert(b.rescaled(m2).amps.len() == b.amps.len());
        }
        assert forall|i: int| 0 <= i < a.amps.len() implies #[trigger] a.amps[i] == b.amps[i] by {
            let x = a.amps[i];
            let y = b.amps[i];
            lemma_rescaled_entry(a, m1, i);
            lemma_rescaled_entry(b, m2, i);
            assert(x.re == y.re) by (nonlinear_arith)
                requires
                    p > 0,
                    p * x.re == p * y.re,
            ;
            assert(x.im == y.im) by (nonlinear_arith)
                requires
                    p > 0,
                    p * x.im == p * y.im,
            ;
        }
        assert(a.amps =~= b.amps);
    }
}

/// Of all the vectors that stand for the same amplitudes, the reduced one
/// has the smallest numerators and the fewest factors of `1/√2`: if any of
/// them is within the limits, the reduced one is.
pub proof fn lemma_reduced_form_is_smallest(r: StateModel, w: StateModel, mr: nat, mw: nat)
    requires
        r.is_reduced(),
        w.wf(),
        r.rescaled(mr) == w.rescaled(mw),
    ensures
        r.wf(),
        mw <= mr,
        r.rescaled((mr - mw) as nat) == w,
{
    if mr < mw {
        lemma_rescaled_further(r, w, mr, mw);
    }
    let d = (mr - mw) as nat;
    let pw = pow2(mw) as int;
    let pd = pow2(d) as int;
    lemma_pow2_adds(mw, d);
    lemma_pow2_pos(mw);
    lemma_pow2_pos(d);
    assert(r.amps.len() == w.amps.len()) by {
        assert(r.rescaled(mr).amps.len() == r.amps.len());
        assert(w.rescaled(mw).amps.len() == w.amps.len());
    }
    let limit = AMP_LIMIT as int;
    assert forall|i: int| 0 <= i < r.amps.len() implies (#[trigger] r.amps[i]).within(limit)
        && r.rescaled(d).amps[i] == w.amps[i] by {
        let x = r.amps[i];
        let y = w.amps[i];
        lemma_rescaled_entry(r, mr, i);
        lemma_rescaled_entry(w, mw, i);
        lemma_rescaled_entry(r, d, i);
        assert(y.within(limit));
        assert(pw * y.re == (pw * pd) * x.re);
        assert(pw * y.im == (pw * pd) * x.im);
        assert(y.re == pd * x.re) by (nonlinear_arith)
            requires
                pw > 0,
                pw * y.re == (pw * pd) * x.re,
        ;
        assert(y.im == pd * x.im) by (nonlinear_arith)
            requires
                pw > 0,
                pw * y.im == (pw * pd) * x.im,
        ;
        assert(-limit <= x.re <= limit) by (nonlinear_arith)
            requires
                pd >= 1,
                y.re == pd * x.re,
                -limit <= y.re <= limit,
        ;
        assert(-limit <= x.im <= limit) by (nonlinear_arith)
            requires
                pd >= 1,
                y.im == pd * x.im,
                -limit <= y.im <= limit,
        ;
    }
    assert(r.rescaled(d).amps =~= w.amps);
}

/// The round trip in full: apply a unitary gate, apply its conjugate
/// transpose, reduce. A reduced vector comes back exactly.
pub proof fn lemma_round_trip_restores(g: GateModel, v: StateModel, reduced: StateModel, m: nat)
    requires
        g.wf(),
        g.cols_orthonormal(),
        v.len() == g.dim(),
        v.is_reduced(),
        reduced.is_reduced(),
        reduced.rescaled(m) == apply_model(g.adjoint(), apply_model(g, v)),
    ensures
        reduced == v,
{
    lemma_adjoint_undoes(g, v);
    lemma_reduced_form_is_unique(reduced, v, m, g.sqrt2_exp);
}

/// Rescaling twice is rescaling once by both factors.
pub proof fn lemma_rescaled_twice(x: StateModel, a: nat, b: nat)
    ensures
        x.rescaled(a).rescaled(b) == x.rescaled(a + b),
{
    let pa = pow2(a) as int;
    let pb = pow2(b) as int;
    lemma_pow2_adds(a, b);
    let once = x.rescaled(a);
    assert forall|i: int| 0 <= i < x.len() implies #[trigger] once.rescaled(b).amps[i]
        == x.rescaled(a + b).amps[i] by {
        let c = x.amps[i];
        lemma_rescaled_entry(x, a, i);
        lemma_rescaled_entry(once, b, i);
        lemma_rescaled_entry(x, a + b, i);
        assert(pb * (pa * c.re) == (pa * pb) * c.re) by (nonlinear_arith);
        assert(pb * (pa * c.im) == (pa * pb) * c.im) by (nonlinear_arith);
    }
    assert(once.rescaled(b).amps =~= x.rescaled(a + b).amps);
}

/// A common rescaling can be taken away from both sides of an equation.
pub proof fn lemma_rescaled_cancel(x: StateModel, a: nat, y: StateModel, b: nat)
    requires
        a <= b,
        x.rescaled(a) == y.rescaled(b),
    ensures
        x == y.rescaled((b - a) as nat),
{
    let d = (b - a) as nat;
    let pa = pow2(a) as int;
    let pd = pow2(d) as int;
    lemma_pow2_adds(a, d);
    lemma_pow2_pos(a);
    assert(x.amps.len() == y.amps.len()) by {
        assert(x.rescaled(a).amps.len() == x.amps.len());
        assert(y.rescaled(b).amps.len() == y.amps.len());
    }
    assert forall|i: int| 0 <= i < x.amps.len() implies #[trigger] x.amps[i] == y.rescaled(
        d,
    ).amps[i] by {
        let c = x.amps[i];
        let e = y.amps[i];
        lemma_rescaled_entry(x, a, i);
        lemma_rescaled_entry(y, b, i);
        lemma_rescaled_entry(y, d, i);
        assert(pa * c.re == (pa * pd) * e.re);
        assert(pa * c.im == (pa * pd) * e.im);
        assert(c.re == pd * e.re) by (nonlinear_arith)
            requires
                pa > 0,
                pa * c.re == (pa * pd) * e.re,
        ;
        assert(c.im == pd * e.im) by (nonlinear_arith)
            requires
                pa > 0,
                pa * c.im == (pa * pd) * e.im,
        ;
    }
    assert(x.amps =~= y.rescaled(d).amps);
}

/// A vector whose rescaling is within the limits is within the limits.
pub proof fn lemma_rescaled_bounds(x: StateModel, d: nat)
    requires
        x.rescaled(d).wf(),
    ensures
        x.wf(),
{
    let pd = pow2(d) as int;
    let limit = AMP_LIMIT as int;
    lemma_pow2_pos(d);
    assert(x.rescaled(d).amps.len() == x.amps.len());
    assert forall|i: int| 0 <= i < x.amps.len() implies (#[trigger] x.amps[i]).within(limit) by {
        let c = x.amps[i];
        let e = x.rescaled(d).amps[i];
        lemma_rescaled_entry(x, d, i);
        assert(e.within(limit));
        assert(-limit <= c.re <= limit) by (nonlinear_arith)
            requires
                pd >= 1,
                e.re == pd * c.re,
                -limit <= e.re <= limit,
        ;
        assert(-limit <= c.im <= limit) by (nonlinear_arith)
            requires
                pd >= 1,
                e.im == pd * c.im,
                -limit <= e.im <= limit,
        ;
    }
}

/// A vector that stands for the same amplitudes as one within the limits
/// can be stored.
pub proof fn lemma_same_amplitudes_storable(x: StateModel, a: nat, y: StateModel, b: nat)
    requires
        y.wf(),
        x.rescaled(a) == y.rescaled(b),
    ensures
        x.storable(),
{
    if a <= b {
        lemma_rescaled_cancel(x, a, y, b);
        assert(y.rescaled((b - a) as nat) == x);
    } else {
        lemma_rescaled_cancel(y, b, x, a);
        lemma_rescaled_bounds(x, (a - b) as nat);
        lemma_wf_is_storable(x);
    }
}

/// What an application leaves is determined by the exact product: two
/// vectors that both store it are equal.
pub proof fn lemma_stored_form_is_unique(a: StateModel, b: StateModel, exact: StateModel)
    requires
        a.stores(exact),
        b.stores(exact),
    ensures
        a == b,
{
    if !exact.wf() {
        let ma = choose|m: nat| #[trigger] a.rescaled(m) == exact;
        let mb = choose|m: nat| #[trigger] b.rescaled(m) == exact;
        lemma_reduced_form_is_unique(a, b, ma, mb);
    }
}

/// What an application leaves stands for the amplitudes of the exact
/// product.
pub proof fn lemma_stored_form_has_same_amplitudes(w: StateModel, exact: StateModel)
    requires
        w.stores(exact),
    ensures
        w.is_form_of(exact),
        w.same_amplitudes(exact),
{
    lemma_rescaled_zero(exact);
    if exact.wf() {
        assert(w.rescaled(0) == exact);
        assert(w.rescaled(0) == exact.rescaled(0));
    } else {
        let m = choose|m: nat| #[trigger] w.rescaled(m) == exact;
        assert(w.rescaled(m) == exact.rescaled(0));
    }
}

/// Applying a gate commutes with rescaling the vector.
pub proof fn lemma_apply_rescaled(g: GateModel, v: StateModel, m: nat)
    requires
        forall|i: int| 0 <= i < g.dim() ==> (#[trigger] g.rows[i]).len() == g.dim(),
        v.len() == g.dim(),
    ensures
        apply_model(g, v.rescaled(m)) == apply_model(g, v).rescaled(m),
{
    let n = g.dim();
    let scale = Cx::from_int(pow2(m) as int);
    let scaled = v.rescaled(m);
    let left = apply_model(g, scaled);
    let right = apply_model(g, v).rescaled(m);
    assert forall|i: int| 0 <= i < n implies #[trigger] left.amps[i] == right.amps[i] by {
        let plain = dot_term(g.rows[i], v.amps);
        let grown = dot_term(g.rows[i], scaled.amps);
        assert(g.rows[i].len() == n);
        assert forall|j: int| 0 <= j < n implies #[trigger] grown(j) == scale.times(plain(j)) by {
            assert(scaled.amps[j] == scale.times(v.amps[j]));
            lemma_times_associates(g.rows[i][j], scale, v.amps[j]);
            lemma_times_commutes(g.rows[i][j], scale);
            lemma_times_associates(scale, g.rows[i][j], v.amps[j]);
        }
        lemma_sum_factor_left(n, scale, plain, grown);
    }
    assert(left.amps =~= right.amps);
}

/// A unitary gate followed by its conjugate transpose restores the vector.
/// Whatever form `w` the first application left the product in, the second
/// application succeeds, and whatever it leaves stands for the amplitudes
/// of the vector that the round trip started from.
pub proof fn lemma_round_trip_succeeds(g: GateModel, v: StateModel, w: StateModel, last: StateModel)
    requires
        g.wf(),
        g.cols_orthonormal(),
        v.wf(),
        v.len() == g.dim(),
        w.stores(apply_model(g, v)),
        last.stores(apply_model(g.adjoint(), w)),
    ensures
        apply_outcome(g.adjoint(), w) is Ok,
        last.same_amplitudes(v),
{
    let adj = g.adjoint();
    let first = apply_model(g, v);
    let second = apply_model(adj, w);
    lemma_stored_form_has_same_amplitudes(w, first);
    let m = choose|m: nat| #[trigger] w.rescaled(m) == first;
    assert(w.len() == g.dim()) by {
        assert(w.rescaled(m).amps.len() == w.amps.len());
    }
    lemma_apply_rescaled(adj, w, m);
    lemma_adjoint_undoes(g, v);
    assert(second.rescaled(m) == v.rescaled(g.sqrt2_exp));
    lemma_same_amplitudes_storable(second, m, v, g.sqrt2_exp);
    lemma_stored_form_has_same_amplitudes(last, second);
    let k = choose|k: nat| #[trigger] last.rescaled(k) == second;
    lemma_rescaled_twice(last, k, m);
    assert(last.rescaled(k + m) == v.rescaled(g.sqrt2_exp));
}

/// The weights of a rescaled vector are the weights of the vector times
/// the square of the power of two.
pub proof fn lemma_rescaled_weight(v: StateModel, m: nat, n: nat)
    requires
        n <= v.len(),
    ensures
        weight_sum(v.rescaled(m).amps, n) == pow2(m) * pow2(m) * weight_sum(v.amps, n),
    decreases n,
{
    let p = pow2(m) as int;
    if n > 0 {
        lemma_rescaled_weight(v, m, (n - 1) as nat);
        lemma_rescaled_entry(v, m, n - 1);
        let x = v.amps[n - 1];
        let y = v.rescaled(m).amps[n - 1];
        let rest = weight_sum(v.amps, (n - 1) as nat);
        assert(y.re * y.re + y.im * y.im == p * p * (x.re * x.re + x.im * x.im))
            by (nonlinear_arith)
            requires
                y.re == p * x.re,
                y.im == p * x.im,
        ;
        assert(p * p * rest + p * p * (x.re * x.re + x.im * x.im) == p * p * (rest + (x.re * x.re
            + x.im * x.im))) by (nonlinear_arith);
    } else {
        assert(p * p * 0 == 0) by (nonlinear_arith);
    }
}

/// Rescaling keeps the total probability: a vector is normalized exactly
/// when its rescaling is.
pub proof fn lemma_rescaling_keeps_normalization(v: StateModel, m: nat)
    ensures
        v.rescaled(m).is_normalized() == v.is_normalized(),
{
    let p = pow2(m) as int;
    let unit = pow2(v.sqrt2_exp) as int;
    let total = v.total_weight();
    lemma_rescaled_weight(v, m, v.len());
    lemma_pow2_adds(m, m);
    lemma_pow2_adds(v.sqrt2_exp, 2 * m);
    lemma_pow2_pos(m);
    assert(v.rescaled(m).amps.len() == v.amps.len());
    assert(v.rescaled(m).total_weight() == p * p * total);
    assert(pow2(v.sqrt2_exp + 2 * m) == unit * (p * p));
    assert((p * p * total == unit * (p * p)) == (total == unit)) by (nonlinear_arith)
        requires
            p > 0,
    ;
}

/// A unitary gate keeps a normalized vector normalized, in whatever form
/// the application leaves the product.
pub proof fn lemma_unitary_keeps_normalization(g: GateModel, v: StateModel, w: StateModel)
    requires
        g.wf(),
        g.cols_orthonormal(),
        v.len() == g.dim(),
        v.is_normalized(),
        w.stores(apply_model(g, v)),
    ensures
        w.is_normalized(),
{
    lemma_unitary_preserves_norm(g, v);
    lemma_stored_form_has_same_amplitudes(w, apply_model(g, v));
    let m = choose|m: nat| #[trigger] w.rescaled(m) == apply_model(g, v);
    lemma_rescaling_keeps_normalization(w, m);
}

/// A unitary gate keeps the total probability of any vector, in whatever
/// form the application leaves the product: the sums of the weights, each
/// over its own power of two, are the same fraction.
pub proof fn lemma_unitary_keeps_total_probability(g: GateModel, v: StateModel, w: StateModel)
    requires
        g.wf(),
        g.cols_orthonormal(),
        v.len() == g.dim(),
        w.stores(apply_model(g, v)),
    ensures
        w.total_weight() * pow2(v.sqrt2_exp) == v.total_weight() * pow2(w.sqrt2_exp),
{
    let exact = apply_model(g, v);
    lemma_unitary_preserves_norm(g, v);
    lemma_stored_form_has_same_amplitudes(w, exact);
    let m = choose|m: nat| #[trigger] w.rescaled(m) == exact;
    lemma_rescaled_weight(w, m, w.len());
    assert(w.rescaled(m).amps.len() == w.amps.len());
    let p = pow2(m) as int;
    let gain = pow2(g.sqrt2_exp) as int;
    let before = pow2(v.sqrt2_exp) as int;
    let after = pow2(w.sqrt2_exp) as int;
    let tv = v.total_weight();
    let tw = w.total_weight();
    lemma_pow2_pos(m);
    lemma_pow2_pos(g.sqrt2_exp);
    lemma_pow2_adds(m, m);
    lemma_pow2_adds(w.sqrt2_exp, 2 * m);
    lemma_pow2_adds(g.sqrt2_exp, v.sqrt2_exp);
    assert(p * p * tw == gain * tv);
    assert(after * (p * p) == gain * before);
    assert(tw * before == tv * after) by (nonlinear_arith)
        requires
            p > 0,
            p * p * tw == gain * tv,
            after * (p * p) == gain * before,
            gain > 0,
    ;
}

} // verus!
