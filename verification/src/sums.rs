//! Finite sums of Gaussian integers, and the facts about them that the
//! rest of the crate relies on.

use vstd::prelude::*;
use crate::complex::{Cx, lemma_times_zero, lemma_times_distributes};

verus! {

/// `f(0) + f(1) + ... + f(n - 1)`.
pub open spec fn sum_to(n: nat, f: spec_fn(int) -> Cx) -> Cx
    decreases n,
{
    if n == 0 {
        Cx::zero()
    } else {
        sum_to((n - 1) as nat, f).plus(f(n - 1))
    }
}

/// Sums of functions that agree below `n` are equal.
pub proof fn lemma_sum_ext(n: nat, f: spec_fn(int) -> Cx, g: spec_fn(int) -> Cx)
    requires
        forall|i: int| 0 <= i < n ==> #[trigger] f(i) == g(i),
    ensures
        sum_to(n, f) == sum_to(n, g),
    decreases n,
{
    if n > 0 {
        lemma_sum_ext((n - 1) as nat, f, g);
        assert(f(n - 1) == g(n - 1));
    }
}

/// A sum of zeros is zero.
pub proof fn lemma_sum_zero(n: nat, f: spec_fn(int) -> Cx)
    requires
        forall|i: int| 0 <= i < n ==> #[trigger] f(i) == Cx::zero(),
    ensures
        sum_to(n, f) == Cx::zero(),
    decreases n,
{
    if n > 0 {
        lemma_sum_zero((n - 1) as nat, f);
        assert(f(n - 1) == Cx::zero());
    }
}

/// A sum whose terms vanish everywhere but at `p` equals the term at `p`.
pub proof fn lemma_sum_single(n: nat, f: spec_fn(int) -> Cx, p: int)
    requires
        0 <= p < n,
        forall|i: int| 0 <= i < n && i != p ==> #[trigger] f(i) == Cx::zero(),
    ensures
        sum_to(n, f) == f(p),
    decreases n,
{
    if n - 1 == p {
        lemma_sum_zero((n - 1) as nat, f);
    } else {
        lemma_sum_single((n - 1) as nat, f, p);
        assert(f(n - 1) == Cx::zero());
    }
}

/// A sum whose terms vanish everywhere but at `p` and `q` equals the sum of
/// those two terms.
pub proof fn lemma_sum_pair(n: nat, f: spec_fn(int) -> Cx, p: int, q: int)
    requires
        0 <= p < q < n,
        forall|i: int| 0 <= i < n && i != p && i != q ==> #[trigger] f(i) == Cx::zero(),
    ensures
        sum_to(n, f) == f(p).plus(f(q)),
    decreases n,
{
    if n - 1 == q {
        lemma_sum_single((n - 1) as nat, f, p);
    } else {
        lemma_sum_pair((n - 1) as nat, f, p, q);
        assert(f(n - 1) == Cx::zero());
    }
}

/// The sum of term-by-term sums is the sum of the sums.
pub proof fn lemma_sum_plus(
    n: nat,
    f: spec_fn(int) -> Cx,
    g: spec_fn(int) -> Cx,
    h: spec_fn(int) -> Cx,
)
    requires
        forall|i: int| 0 <= i < n ==> #[trigger] h(i) == f(i).plus(g(i)),
    ensures
        sum_to(n, h) == sum_to(n, f).plus(sum_to(n, g)),
    decreases n,
{
    if n > 0 {
        lemma_sum_plus((n - 1) as nat, f, g, h);
        assert(h(n - 1) == f(n - 1).plus(g(n - 1)));
    }
}

/// A common left factor can be taken out of a sum.
pub proof fn lemma_sum_factor_left(n: nat, c: Cx, f: spec_fn(int) -> Cx, h: spec_fn(int) -> Cx)
    requires
        forall|i: int| 0 <= i < n ==> #[trigger] h(i) == c.times(f(i)),
    ensures
        sum_to(n, h) == c.times(sum_to(n, f)),
    decreases n,
{
    if n > 0 {
        lemma_sum_factor_left((n - 1) as nat, c, f, h);
        assert(h(n - 1) == c.times(f(n - 1)));
        lemma_times_distributes(c, sum_to((n - 1) as nat, f), f(n - 1));
    } else {
        lemma_times_zero(c);
    }
}

/// A common right factor can be taken out of a sum.
pub proof fn lemma_sum_factor_right(n: nat, c: Cx, f: spec_fn(int) -> Cx, h: spec_fn(int) -> Cx)
    requires
        forall|i: int| 0 <= i < n ==> #[trigger] h(i) == f(i).times(c),
    ensures
        sum_to(n, h) == sum_to(n, f).times(c),
    decreases n,
{
    if n > 0 {
        lemma_sum_factor_right((n - 1) as nat, c, f, h);
        assert(h(n - 1) == f(n - 1).times(c));
        lemma_times_distributes(c, sum_to((n - 1) as nat, f), f(n - 1));
    } else {
        lemma_times_zero(c);
    }
}

/// The sum of the conjugates is the conjugate of the sum.
pub proof fn lemma_sum_conj(n: nat, f: spec_fn(int) -> Cx, h: spec_fn(int) -> Cx)
    requires
        forall|i: int| 0 <= i < n ==> #[trigger] h(i) == f(i).conj(),
    ensures
        sum_to(n, h) == sum_to(n, f).conj(),
    decreases n,
{
    if n > 0 {
        lemma_sum_conj((n - 1) as nat, f, h);
        assert(h(n - 1) == f(n - 1).conj());
    }
}

/// Row `i` of a table of terms.
pub open spec fn table_row(table: spec_fn(int, int) -> Cx, i: int) -> spec_fn(int) -> Cx {
    |j: int| table(i, j)
}

/// Column `j` of a table of terms.
pub open spec fn table_col(table: spec_fn(int, int) -> Cx, j: int) -> spec_fn(int) -> Cx {
    |i: int| table(i, j)
}

/// The sums of the rows of a table with `m` columns.
pub open spec fn row_sums(table: spec_fn(int, int) -> Cx, m: nat) -> spec_fn(int) -> Cx {
    |i: int| sum_to(m, table_row(table, i))
}

/// The sums of the columns of a table with `n` rows.
pub open spec fn col_sums(table: spec_fn(int, int) -> Cx, n: nat) -> spec_fn(int) -> Cx {
    |j: int| sum_to(n, table_col(table, j))
}

/// A table of `n` rows and `m` columns sums to the same by rows as by
/// columns.
pub proof fn lemma_sum_swap(n: nat, m: nat, table: spec_fn(int, int) -> Cx)
    ensures
        sum_to(n, row_sums(table, m)) == sum_to(m, col_sums(table, n)),
    decreases n,
{
    if n == 0 {
        assert forall|j: int| 0 <= j < m implies #[trigger] col_sums(table, 0)(j)
            == Cx::zero() by {}
        lemma_sum_zero(m, col_sums(table, 0));
    } else {
        let k = (n - 1) as nat;
        lemma_sum_swap(k, m, table);
        assert forall|j: int| 0 <= j < m implies #[trigger] col_sums(table, n)(j) == col_sums(
            table,
            k,
        )(j).plus(table_row(table, k as int)(j)) by {}
        lemma_sum_plus(m, col_sums(table, k), table_row(table, k as int), col_sums(table, n));
        assert(row_sums(table, m)(k as int) == sum_to(m, table_row(table, k as int)));
    }
}

/// The term-by-term products of two sequences: `|j| a[j] * b[j]`.
pub open spec fn dot_term(a: Seq<Cx>, b: Seq<Cx>) -> spec_fn(int) -> Cx {
    |j: int| a[j].times(b[j])
}

/// The product of a row and a column: `a[0]*b[0] + ... + a[n-1]*b[n-1]`.
pub open spec fn dot(a: Seq<Cx>, b: Seq<Cx>) -> Cx {
    sum_to(a.len(), dot_term(a, b))
}

/// A row with a single entry that is not zero picks one component of the
/// vector it is multiplied with.
pub proof fn lemma_dot_single(row: Seq<Cx>, v: Seq<Cx>, p: int)
    requires
        0 <= p < row.len(),
        forall|j: int| 0 <= j < row.len() && j != p ==> #[trigger] row[j] == Cx::zero(),
    ensures
        dot(row, v) == row[p].times(v[p]),
{
    let f = dot_term(row, v);
    assert forall|j: int| 0 <= j < row.len() && j != p implies #[trigger] f(j) == Cx::zero() by {
        assert(row[j] == Cx::zero());
        lemma_times_zero(v[j]);
    }
    lemma_sum_single(row.len(), f, p);
}

/// A vector with a single component that is not zero picks one entry of
/// the row it is multiplied with.
pub proof fn lemma_dot_picks(row: Seq<Cx>, v: Seq<Cx>, p: int)
    requires
        0 <= p < row.len(),
        forall|j: int| 0 <= j < row.len() && j != p ==> #[trigger] v[j] == Cx::zero(),
    ensures
        dot(row, v) == row[p].times(v[p]),
{
    let f = dot_term(row, v);
    assert forall|j: int| 0 <= j < row.len() && j != p implies #[trigger] f(j) == Cx::zero() by {
        assert(v[j] == Cx::zero());
        lemma_times_zero(row[j]);
    }
    lemma_sum_single(row.len(), f, p);
}

} // verus!
