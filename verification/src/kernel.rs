//! The kernel basis of a matrix in reduced row-echelon form.

use vstd::prelude::*;
use crate::matrix::num_cols;
use crate::model::{
    binary_row, column_clear_but, free_columns, is_gf2, is_pivot, is_pivot_column, is_rref,
    leads_before, pivot, pivot_row, rref_row, Table,
};
use crate::pivots::{lemma_first_one, lemma_pivot_cases, lemma_pivot_is};

verus! {

/// The state of a scan of the columns of a matrix in reduced row-echelon
/// form, from the left: the first `rows_done` rows are those with a pivot
/// left of column `cols_done`.
pub open spec fn scanned(m: Table, rows_done: int, cols_done: int) -> bool {
    &&& forall|i: int| 0 <= i < rows_done ==> leads_before(#[trigger] m[i], cols_done)
    &&& forall|i: int| rows_done <= i < m.len() ==> !leads_before(#[trigger] m[i], cols_done)
}

/// No row has a pivot left of the first column.
pub proof fn lemma_scan_start(m: Table)
    ensures
        scanned(m, 0, 0),
{
    assert forall|i: int| 0 <= i < m.len() implies !leads_before(#[trigger] m[i], 0) by {
        lemma_pivot_cases(m[i]);
    }
}

/// Where the next row has a 1 in the next column, that column is its pivot
/// column.
pub proof fn lemma_scan_pivot(m: Table, rows_done: int, cols_done: int)
    requires
        is_gf2(m),
        is_rref(m),
        scanned(m, rows_done, cols_done),
        0 <= rows_done < m.len(),
        0 <= cols_done < num_cols(m),
        m[rows_done][cols_done] == 1,
    ensures
        pivot(m[rows_done]) == Some(cols_done),
        is_pivot_column(m, cols_done),
        scanned(m, rows_done + 1, cols_done + 1),
{
    let row = m[rows_done];
    assert(row.len() == num_cols(m));
    lemma_first_one(row, cols_done);
    let p = choose|p: int| is_pivot(row, p) && p <= cols_done;
    lemma_pivot_is(row, p);
    assert(!leads_before(row, cols_done));
    assert(p == cols_done);
    assert forall|i: int| rows_done + 1 <= i < m.len() implies !leads_before(
        #[trigger] m[i],
        cols_done + 1,
    ) by {
        if leads_before(m[i], cols_done + 1) {
            assert(!leads_before(m[i], cols_done));
            assert(pivot(m[i]) == Some(cols_done));
            assert(rref_row(m, i));
            assert(leads_before(m[rows_done], cols_done));
        }
    }
    assert forall|i: int| 0 <= i < rows_done + 1 implies leads_before(
        #[trigger] m[i],
        cols_done + 1,
    ) by {
        if i < rows_done {
            assert(leads_before(m[i], cols_done));
        }
    }
}

/// Where the next row has no 1 in the next column, or there is no next row,
/// that column is free.
pub proof fn lemma_scan_free(m: Table, rows_done: int, cols_done: int)
    requires
        is_gf2(m),
        is_rref(m),
        scanned(m, rows_done, cols_done),
        0 <= rows_done <= m.len(),
        0 <= cols_done < num_cols(m),
        rows_done < m.len() ==> m[rows_done][cols_done] != 1,
    ensures
        !is_pivot_column(m, cols_done),
        scanned(m, rows_done, cols_done + 1),
{
    assert forall|i: int| 0 <= i < m.len() implies #[trigger] pivot(m[i]) != Some(cols_done) by {
        if pivot(m[i]) == Some(cols_done) {
            lemma_pivot_cases(m[i]);
            if i < rows_done {
                assert(leads_before(m[i], cols_done));
            } else if i > rows_done {
                assert(rref_row(m, i));
                assert(leads_before(m[rows_done], cols_done));
                assert(!leads_before(m[rows_done], cols_done));
            }
        }
    }
    assert forall|i: int| rows_done <= i < m.len() implies !leads_before(
        #[trigger] m[i],
        cols_done + 1,
    ) by {
        assert(!leads_before(m[i], cols_done));
        assert(pivot(m[i]) != Some(cols_done));
    }
    assert forall|i: int| 0 <= i < rows_done implies leads_before(
        #[trigger] m[i],
        cols_done + 1,
    ) by {
        assert(leads_before(m[i], cols_done));
    }
}

/// In reduced row-echelon form a pivot column belongs to one row only.
pub proof fn lemma_pivot_row_is(m: Table, i: int, c: int)
    requires
        is_rref(m),
        0 <= i < m.len(),
        pivot(m[i]) == Some(c),
    ensures
        is_pivot_column(m, c),
        pivot_row(m, c) == i,
{
    let k = pivot_row(m, c);
    assert(0 <= k < m.len() && pivot(m[k]) == Some(c));
    if k < i {
        assert(rref_row(m, i));
        assert(leads_before(m[k], c));
    } else if i < k {
        assert(rref_row(m, k));
        assert(leads_before(m[i], c));
    }
}

/// Whether `pivots` maps each pivot column of `m` to the row that it
/// belongs to, and nothing else.
pub open spec fn maps_pivots(pivots: Map<usize, usize>, m: Table) -> bool {
    &&& forall|c: usize| #[trigger] pivots.contains_key(c) <==> is_pivot_column(m, c as int)
    &&& forall|c: usize| #[trigger]
        pivots.contains_key(c) ==> pivots[c] < m.len() && pivot(m[pivots[c] as int]) == Some(
            c as int,
        )
}

/// The sum in GF(2) of the products `row[c] * v[c]` over the columns `c`
/// from `from` on, without column `skip`.
pub open spec fn xor_sum_above(row: Seq<u8>, v: Seq<u8>, skip: int, from: int) -> u8
    decreases row.len() - from,
{
    if from >= row.len() {
        0
    } else if from == skip {
        xor_sum_above(row, v, skip, from + 1)
    } else {
        xor_sum_above(row, v, skip, from + 1) ^ ((row[from] * v[from]) as u8)
    }
}

/// Adding 0 in GF(2) changes nothing.
pub proof fn lemma_xor_zero(a: u8)
    ensures
        a ^ 0 == a,
        0 ^ a == a,
{
    assert(a ^ 0 == a) by (bit_vector);
    assert(0 ^ a == a) by (bit_vector);
}

/// Back-substitution for the pivot of row `r` of a matrix in reduced
/// row-echelon form, on a vector that is 1 at the free column `f` and 0 at
/// every other free column: the sum over the other columns is the entry of
/// row `r` in column `f`.
pub proof fn lemma_back_substitution(m: Table, r: int, p: int, f: int, v: Seq<u8>, from: int)
    requires
        is_gf2(m),
        is_rref(m),
        0 <= r < m.len(),
        pivot(m[r]) == Some(p),
        0 <= f < num_cols(m),
        !is_pivot_column(m, f),
        v.len() == num_cols(m),
        v[f] == 1,
        forall|c: int| 0 <= c < num_cols(m) && c != f && !is_pivot_column(m, c) ==> #[trigger] v[c] == 0,
        0 <= from <= num_cols(m),
    ensures
        xor_sum_above(m[r], v, p, from) == if from <= f {
            m[r][f]
        } else {
            0
        },
    decreases num_cols(m) - from,
{
    let row = m[r];
    assert(row.len() == num_cols(m));
    if from < num_cols(m) {
        lemma_back_substitution(m, r, p, f, v, from + 1);
        let rest = xor_sum_above(row, v, p, from + 1);
        if from != p {
            let term = (row[from] * v[from]) as u8;
            if from == f {
                assert(binary_row(row));
                assert(row[from] * v[from] == row[from]) by (nonlinear_arith)
                    requires
                        v[from] == 1,
                ;
                assert(term == row[f]);
                assert(rest == 0);
                lemma_xor_zero(term);
            } else {
                if is_pivot_column(m, from) {
                    let k = pivot_row(m, from);
                    assert(rref_row(m, k));
                    assert(column_clear_but(m, from, k));
                    assert(k != r);
                    assert(row[from] == 0);
                } else {
                    assert(v[from] == 0);
                }
                assert(row[from] * v[from] == 0) by (nonlinear_arith)
                    requires
                        row[from] == 0 || v[from] == 0,
                ;
                assert(term == 0);
                lemma_xor_zero(rest);
            }
        }
    }
}

/// The free columns below `upto` are columns below `upto`, none of them a
/// pivot column, and there are at most `upto` of them.
pub proof fn lemma_free_columns(m: Table, upto: int)
    requires
        0 <= upto,
    ensures
        free_columns(m, upto).len() <= upto,
        forall|k: int|
            0 <= k < free_columns(m, upto).len() ==> 0 <= #[trigger] free_columns(m, upto)[k]
                < upto && !is_pivot_column(m, free_columns(m, upto)[k]),
    decreases upto,
{
    if upto > 0 {
        lemma_free_columns(m, upto - 1);
    }
}

} // verus!
