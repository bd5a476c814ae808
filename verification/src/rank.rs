//! Counting pivot columns.

use vstd::prelude::*;
use vstd::set_lib::{lemma_int_range, lemma_len_subset, set_int_range};
use crate::matrix::num_cols;
use crate::image::lemma_pivot_rows_push;
use crate::kernel::lemma_pivot_row_is;
use crate::model::{
    count_pivots, free_columns, is_pivot_column, is_rref, pivot, pivot_columns, pivot_rows,
    rectangular, Table,
};
use crate::pivots::lemma_pivot_cases;

verus! {

/// The first `upto` rows have at most `upto` pivot columns, each of them a
/// column of the matrix.
pub proof fn lemma_pivot_columns(m: Table, upto: int)
    requires
        rectangular(m),
        0 <= upto <= m.len(),
    ensures
        pivot_columns(m, upto).finite(),
        pivot_columns(m, upto).len() <= upto,
        pivot_columns(m, upto).subset_of(set_int_range(0, num_cols(m) as int)),
    decreases upto,
{
    if upto > 0 {
        lemma_pivot_columns(m, upto - 1);
        lemma_pivot_cases(m[upto - 1]);
        assert(m[upto - 1].len() == num_cols(m));
    }
}

/// A matrix has no more pivot columns than rows, and no more than columns.
pub proof fn lemma_count_pivots_bound(m: Table)
    requires
        rectangular(m),
    ensures
        count_pivots(m) <= m.len(),
        count_pivots(m) <= num_cols(m),
{
    lemma_pivot_columns(m, m.len() as int);
    lemma_int_range(0, num_cols(m) as int);
    lemma_len_subset(pivot_columns(m, m.len() as int), set_int_range(0, num_cols(m) as int));
}

/// The pivot columns of the first `upto` rows are the columns in which one
/// of these rows has its pivot.
pub proof fn lemma_pivot_columns_contains(m: Table, upto: int, c: int)
    requires
        0 <= upto <= m.len(),
    ensures
        pivot_columns(m, upto).contains(c) <==> exists|i: int|
            0 <= i < upto && #[trigger] pivot(m[i]) == Some(c),
    decreases upto,
{
    if upto > 0 {
        lemma_pivot_columns_contains(m, upto - 1, c);
        if pivot_columns(m, upto).contains(c) {
            if pivot(m[upto - 1]) == Some(c) {
            } else {
                let i = choose|i: int| 0 <= i < upto - 1 && #[trigger] pivot(m[i]) == Some(c);
                assert(0 <= i < upto && pivot(m[i]) == Some(c));
            }
        }
        if exists|i: int| 0 <= i < upto && #[trigger] pivot(m[i]) == Some(c) {
            let i = choose|i: int| 0 <= i < upto && #[trigger] pivot(m[i]) == Some(c);
            if i < upto - 1 {
                assert(0 <= i < upto - 1 && pivot(m[i]) == Some(c));
            }
        }
    }
}

/// Below each column, the free columns and the pivot columns together are
/// all the columns.
pub proof fn lemma_free_and_pivot_columns(m: Table, upto: int)
    requires
        rectangular(m),
        0 <= upto,
    ensures
        free_columns(m, upto).len() + pivot_columns(m, m.len() as int).intersect(
            set_int_range(0, upto),
        ).len() == upto,
    decreases upto,
{
    let pivots = pivot_columns(m, m.len() as int);
    lemma_pivot_columns(m, m.len() as int);
    if upto == 0 {
        assert(pivots.intersect(set_int_range(0, 0)) =~= Set::<int>::empty());
    } else {
        lemma_free_and_pivot_columns(m, upto - 1);
        lemma_pivot_columns_contains(m, m.len() as int, upto - 1);
        let below = pivots.intersect(set_int_range(0, upto - 1));
        lemma_int_range(0, upto - 1);
        if is_pivot_column(m, upto - 1) {
            assert(pivots.intersect(set_int_range(0, upto)) =~= below.insert(upto - 1));
        } else {
            assert(pivots.intersect(set_int_range(0, upto)) =~= below);
        }
    }
}

/// A matrix has as many free columns as it has columns that are no pivot
/// column.
pub proof fn lemma_count_free_columns(m: Table)
    requires
        rectangular(m),
    ensures
        free_columns(m, num_cols(m) as int).len() + count_pivots(m) == num_cols(m),
{
    let pivots = pivot_columns(m, m.len() as int);
    lemma_pivot_columns(m, m.len() as int);
    lemma_free_and_pivot_columns(m, num_cols(m) as int);
    assert(pivots.intersect(set_int_range(0, num_cols(m) as int)) =~= pivots);
}

/// Among the first `upto` rows of a matrix in reduced row-echelon form
/// there are as many rows with a pivot as pivot columns.
pub proof fn lemma_count_pivot_rows(m: Table, upto: int)
    requires
        rectangular(m),
        is_rref(m),
        0 <= upto <= m.len(),
    ensures
        pivot_rows(m.take(upto)).len() == pivot_columns(m, upto).len(),
    decreases upto,
{
    if upto == 0 {
        assert(m.take(0) =~= Seq::<Seq<u8>>::empty());
        crate::image::lemma_pivot_rows_empty();
    } else {
        lemma_count_pivot_rows(m, upto - 1);
        lemma_pivot_columns(m, upto - 1);
        lemma_pivot_rows_push(m.take(upto - 1), m[upto - 1]);
        assert(m.take(upto) =~= m.take(upto - 1).push(m[upto - 1]));
        match pivot(m[upto - 1]) {
            Some(c) => {
                lemma_pivot_columns_contains(m, upto - 1, c);
                if pivot_columns(m, upto - 1).contains(c) {
                    let i = choose|i: int| 0 <= i < upto - 1 && #[trigger] pivot(m[i]) == Some(c);
                    lemma_pivot_row_is(m, i, c);
                    lemma_pivot_row_is(m, upto - 1, c);
                }
            },
            None => {},
        }
    }
}

} // verus!
