//! Why the solver finds the solution of a solvable system.

use vstd::prelude::*;
use vstd::set_lib::{lemma_int_range, lemma_subset_equality, set_int_range};
use crate::kernel::lemma_pivot_row_is;
use crate::matrix::num_cols;
use crate::model::{
    binary_row, column_clear_but, count_pivots, is_gf2, is_pivot_column, is_rref, leads_before,
    pivot, pivot_columns, pivot_row, rectangular, rref_row, times, Table,
};
use crate::pivots::lemma_pivot_cases;
use crate::products::lemma_dot_single_entry;
use crate::rank::{lemma_pivot_columns, lemma_pivot_columns_contains};

verus! {

/// In a matrix with as many pivot columns as columns, every column is a
/// pivot column.
pub proof fn lemma_full_rank_columns(m: Table, c: int)
    requires
        rectangular(m),
        count_pivots(m) == num_cols(m),
        0 <= c < num_cols(m),
    ensures
        is_pivot_column(m, c),
{
    let all = set_int_range(0, num_cols(m) as int);
    let pivots = pivot_columns(m, m.len() as int);
    lemma_pivot_columns(m, m.len() as int);
    lemma_int_range(0, num_cols(m) as int);
    lemma_subset_equality(pivots, all);
    assert(all.contains(c));
    lemma_pivot_columns_contains(m, m.len() as int, c);
}

/// In a matrix of full column rank in reduced row-echelon form, the pivot
/// of row `c` is in column `c`.
pub proof fn lemma_full_rank_pivot(m: Table, c: int)
    requires
        is_gf2(m),
        is_rref(m),
        count_pivots(m) == num_cols(m),
        0 <= c < num_cols(m),
    ensures
        c < m.len(),
        pivot(m[c]) == Some(c),
    decreases c,
{
    lemma_full_rank_columns(m, c);
    let k = pivot_row(m, c);
    assert(0 <= k < m.len() && pivot(m[k]) == Some(c));
    if k < c {
        lemma_full_rank_pivot(m, k);
    } else if k > c {
        assert(rref_row(m, k));
        assert(leads_before(m[c], c));
        let q = pivot(m[c]).unwrap();
        lemma_pivot_cases(m[c]);
        lemma_full_rank_pivot(m, q);
        lemma_pivot_row_is(m, q, q);
        lemma_pivot_row_is(m, c, q);
    }
}

/// A matrix of full column rank in reduced row-echelon form is the
/// identity matrix on top of rows of zeros: it sends a vector of bits to
/// that vector, followed by zeros.
pub proof fn lemma_full_rank_product(m: Table, y: Seq<u8>)
    requires
        is_gf2(m),
        is_rref(m),
        count_pivots(m) == num_cols(m),
        binary_row(y),
        y.len() == num_cols(m),
    ensures
        num_cols(m) <= m.len(),
        times(m, y).take(num_cols(m) as int) == y,
{
    let n = num_cols(m) as int;
    if n > 0 {
        lemma_full_rank_pivot(m, n - 1);
    }
    assert forall|i: int| 0 <= i < n implies #[trigger] times(m, y)[i] == y[i] by {
        lemma_full_rank_pivot(m, i);
        lemma_pivot_cases(m[i]);
        let row = m[i];
        assert(row.len() == n);
        assert forall|c: int| 0 <= c < row.len() && c != i implies #[trigger] row[c] == 0 by {
            lemma_full_rank_pivot(m, c);
            assert(rref_row(m, c));
            assert(column_clear_but(m, c, c));
        }
        lemma_dot_single_entry(row, y, i, n);
        assert(row.take(n) =~= row);
        assert(row[i] * y[i] == y[i]) by (nonlinear_arith)
            requires
                row[i] == 1,
        ;
    }
    assert(times(m, y).take(n) =~= y);
}

} // verus!
