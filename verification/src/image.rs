//! The rows with a pivot.

use vstd::prelude::*;
use crate::model::{pivot, pivot_rows, Table};

verus! {

/// Appending a row appends it to the rows with a pivot where it has one.
pub proof fn lemma_pivot_rows_push(m: Table, row: Seq<u8>)
    ensures
        pivot_rows(m.push(row)) == if pivot(row) is Some {
            pivot_rows(m).push(row)
        } else {
            pivot_rows(m)
        },
{
    m.lemma_filter_push(row, |row: Seq<u8>| pivot(row) is Some);
}

/// A matrix without rows has no rows with a pivot.
pub proof fn lemma_pivot_rows_empty()
    ensures
        pivot_rows(Seq::<Seq<u8>>::empty()) == Seq::<Seq<u8>>::empty(),
{
    reveal(Seq::filter);
}

} // verus!
