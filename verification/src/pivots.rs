//! Facts about pivots.

use vstd::prelude::*;
use crate::model::{has_no_one, is_pivot, pivot};

verus! {

/// A row has at most one pivot, and `pivot` names it.
pub proof fn lemma_pivot_is(row: Seq<u8>, p: int)
    requires
        is_pivot(row, p),
    ensures
        pivot(row) == Some(p),
{
    let q = choose|q: int| is_pivot(row, q);
    assert(is_pivot(row, q));
    if q < p {
        assert(row[q] != 1);
    } else if p < q {
        assert(row[p] != 1);
    }
}

/// A row without a 1 has no pivot.
pub proof fn lemma_pivot_none(row: Seq<u8>)
    requires
        has_no_one(row),
    ensures
        pivot(row) is None,
{
    if exists|p: int| is_pivot(row, p) {
        let p = choose|p: int| is_pivot(row, p);
        assert(row[p] != 1);
    }
}

/// What `pivot` says of a row, spelled out.
pub proof fn lemma_pivot_cases(row: Seq<u8>)
    ensures
        match pivot(row) {
            Some(p) => is_pivot(row, p),
            None => has_no_one(row),
        },
{
    if exists|p: int| is_pivot(row, p) {
    } else {
        assert forall|j: int| 0 <= j < row.len() implies #[trigger] row[j] != 1 by {
            if row[j] == 1 {
                lemma_first_one(row, j);
            }
        }
    }
}

/// A row with a 1 at `j` has a pivot at or before `j`.
pub proof fn lemma_first_one(row: Seq<u8>, j: int)
    requires
        0 <= j < row.len(),
        row[j] == 1,
    ensures
        exists|p: int| is_pivot(row, p) && p <= j,
    decreases j,
{
    if exists|k: int| 0 <= k < j && row[k] == 1 {
        let k = choose|k: int| 0 <= k < j && row[k] == 1;
        lemma_first_one(row, k);
    } else {
        assert(is_pivot(row, j));
    }
}

} // verus!
