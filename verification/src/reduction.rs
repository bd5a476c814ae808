//! Why Gauss-Jordan elimination ends in reduced row-echelon form.

use vstd::prelude::*;
use crate::matrix::num_cols;
use crate::model::{
    binary_row, column_clear_but, echelon, eliminated, elimination_ops, find_row, has_no_one,
    history, is_gf2, is_pivot, is_rref, leads_before, ops_within, pivot, reduce_from, rref,
    rref_row, swap_ops, swapped, RowOp, Table,
};
use crate::pivots::{lemma_pivot_cases, lemma_pivot_is, lemma_pivot_none};

verus! {

/// `find_row` returns `i` where the rows from `from` up to `i` are zero in
/// column `lead` and row `i`, if there is one, is not.
pub proof fn lemma_find_row_is(m: Table, lead: int, from: int, i: int)
    requires
        0 <= from <= i <= m.len(),
        forall|k: int| from <= k < i ==> (#[trigger] m[k])[lead] == 0,
        i < m.len() ==> m[i][lead] != 0,
    ensures
        find_row(m, lead, from) == i,
    decreases i - from,
{
    if from < i {
        assert(m[from][lead] == 0);
        lemma_find_row_is(m, lead, from + 1, i);
    }
}

/// What `find_row` finds.
pub proof fn lemma_find_row(m: Table, lead: int, from: int)
    requires
        0 <= from <= m.len(),
    ensures
        from <= find_row(m, lead, from) <= m.len(),
        forall|k: int| from <= k < find_row(m, lead, from) ==> (#[trigger] m[k])[lead] == 0,
        find_row(m, lead, from) < m.len() ==> m[find_row(m, lead, from)][lead] != 0,
    decreases m.len() - from,
{
    if from < m.len() && m[from][lead] == 0 {
        lemma_find_row(m, lead, from + 1);
    }
}

/// Row `i` of `m` meets the condition of reduced row-echelon form and has
/// its pivot left of column `lead`.
pub open spec fn settled_row(m: Table, i: int, lead: int) -> bool {
    rref_row(m, i) && leads_before(m[i], lead)
}

/// Whether `row` is zero left of column `lead`.
pub open spec fn zero_left(row: Seq<u8>, lead: int) -> bool {
    forall|c: int| 0 <= c < lead ==> #[trigger] row[c] == 0
}

/// The state of the elimination before it works on row `r` and column
/// `lead`: the rows above `r` are settled with pivots left of `lead`, and
/// the other rows are zero left of `lead`.
pub open spec fn reduced_upto(m: Table, r: int, lead: int) -> bool {
    &&& is_gf2(m)
    &&& 0 <= r <= m.len()
    &&& 0 <= lead <= num_cols(m)
    &&& forall|i: int| 0 <= i < r ==> #[trigger] settled_row(m, i, lead)
    &&& forall|i: int| r <= i < m.len() ==> zero_left(#[trigger] m[i], lead)
}

/// Every matrix over GF(2) is a state from which the elimination starts.
pub proof fn lemma_reduced_upto_start(m: Table)
    requires
        is_gf2(m),
    ensures
        reduced_upto(m, 0, 0),
{
}

/// Exchanging two rows at or below `r` keeps the state of the elimination.
pub proof fn lemma_swap_keeps(m: Table, r: int, i: int, lead: int)
    requires
        reduced_upto(m, r, lead),
        r <= i < m.len(),
    ensures
        reduced_upto(swapped(m, r, i), r, lead),
        swapped(m, r, i).len() == m.len(),
        num_cols(swapped(m, r, i)) == num_cols(m),
        swapped(m, r, i)[r] == m[i],
{
    let s = swapped(m, r, i);
    assert forall|k: int| 0 <= k < s.len() implies (#[trigger] s[k]).len() == num_cols(m)
        && binary_row(s[k]) by {
        if k == r {
            assert(s[k] == m[i]);
        } else if k == i {
            assert(s[k] == m[r]);
        } else {
            assert(s[k] == m[k]);
        }
    }
    assert(s[0].len() == num_cols(m));
    assert forall|k: int| 0 <= k < r implies #[trigger] settled_row(s, k, lead) by {
        assert(s[k] == m[k]);
        assert(settled_row(m, k, lead));
        let p = pivot(m[k]).unwrap();
        assert forall|k2: int| 0 <= k2 < k implies leads_before(#[trigger] s[k2], p) by {
            assert(s[k2] == m[k2]);
        }
        assert forall|j: int| 0 <= j < s.len() && j != k implies (#[trigger] s[j])[p] == 0 by {
            if j == r {
                assert(s[j] == m[i]);
                assert(m[i][p] == 0);
            } else if j == i {
                assert(s[j] == m[r]);
                assert(m[r][p] == 0);
            } else {
                assert(s[j] == m[j]);
            }
        }
    }
    assert forall|k: int| r <= k < s.len() implies zero_left(#[trigger] s[k], lead) by {
        if k == r {
            assert(s[k] == m[i]);
        } else if k == i {
            assert(s[k] == m[r]);
        } else {
            assert(s[k] == m[k]);
        }
    }
}

/// Adding row `r`, which leads in column `lead`, into every other row with
/// a 1 in that column settles row `r` and clears the column around it.
pub proof fn lemma_eliminate_settles(m: Table, r: int, lead: int)
    requires
        reduced_upto(m, r, lead),
        r < m.len(),
        lead < num_cols(m),
        m[r][lead] == 1,
    ensures
        reduced_upto(eliminated(m, r, lead), r + 1, lead + 1),
        eliminated(m, r, lead).len() == m.len(),
        num_cols(eliminated(m, r, lead)) == num_cols(m),
{
    let e = eliminated(m, r, lead);
    assert(e[r] == m[r]);
    assert(zero_left(m[r], lead));
    assert(is_pivot(m[r], lead));
    lemma_pivot_is(m[r], lead);
    assert forall|j: int| 0 <= j < e.len() implies (#[trigger] e[j]).len() == num_cols(m)
        && binary_row(e[j]) by {
        assert(binary_row(m[j]));
        assert(binary_row(m[r]));
        assert(m[j].len() == num_cols(m));
        assert(m[r].len() == num_cols(m));
    }
    assert(e[0].len() == num_cols(m));
    // Entries in columns where row `r` is zero stay as they were.
    assert forall|j: int, c: int|
        0 <= j < e.len() && 0 <= c < num_cols(m) && m[r][c] == 0 implies #[trigger] e[j][c]
        == m[j][c] by {
        assert(binary_row(m[j]));
        assert(m[j].len() == num_cols(m));
    }
    // Column `lead` is cleared in the other rows.
    assert forall|j: int| 0 <= j < e.len() && j != r implies (#[trigger] e[j])[lead] == 0 by {
        assert(binary_row(m[j]));
        assert(binary_row(m[r]));
        assert(m[j].len() == num_cols(m));
    }
    // The rows above keep their pivots.
    assert forall|k: int| 0 <= k < r implies pivot(#[trigger] e[k]) == pivot(m[k]) && pivot(
        m[k],
    ) is Some && pivot(m[k]).unwrap() < lead && m[r][pivot(m[k]).unwrap()] == 0 by {
        assert(settled_row(m, k, lead));
        let p = pivot(m[k]).unwrap();
        lemma_pivot_cases(m[k]);
        assert(m[r][p] == 0);
        assert(m[k].len() == num_cols(m));
        assert forall|c: int| 0 <= c <= p implies e[k][c] == m[k][c] by {
            assert(m[r][c] == 0);
        }
        assert(is_pivot(e[k], p));
        lemma_pivot_is(e[k], p);
    }
    assert forall|k: int| 0 <= k < r + 1 implies #[trigger] settled_row(e, k, lead + 1) by {
        if k < r {
            assert(settled_row(m, k, lead));
            let p = pivot(m[k]).unwrap();
            assert(pivot(e[k]) == Some(p));
            assert forall|k2: int| 0 <= k2 < k implies leads_before(#[trigger] e[k2], p) by {
                assert(leads_before(m[k2], p));
                assert(pivot(e[k2]) == pivot(m[k2]));
            }
            assert forall|j: int| 0 <= j < e.len() && j != k implies (#[trigger] e[j])[p]
                == 0 by {
                assert(m[j][p] == 0);
                assert(e[j][p] == m[j][p]);
            }
        } else {
            assert(pivot(e[r]) == Some(lead));
            assert forall|k2: int| 0 <= k2 < r implies leads_before(#[trigger] e[k2], lead) by {
                assert(pivot(e[k2]) == pivot(m[k2]));
            }
        }
    }
    assert forall|j: int| r + 1 <= j < e.len() implies zero_left(#[trigger] e[j], lead + 1) by {
        assert(zero_left(m[j], lead));
        assert forall|c: int| 0 <= c < lead + 1 implies #[trigger] e[j][c] == 0 by {
            if c < lead {
                assert(m[r][c] == 0);
                assert(m[j][c] == 0);
                assert(e[j][c] == m[j][c]);
            } else {
                assert(e[j][lead] == 0);
            }
        }
    }
}

/// The record of an elimination names rows of the matrix only.
pub proof fn lemma_elimination_ops_within(m: Table, r: int, lead: int, upto: int)
    requires
        0 <= r < m.len(),
        upto <= m.len(),
    ensures
        ops_within(elimination_ops(m, r, lead, upto), m.len()),
    decreases upto,
{
    if upto > 0 {
        lemma_elimination_ops_within(m, r, lead, upto - 1);
    }
}

/// From a state of the elimination, the rest of it ends in a matrix over
/// GF(2) of the same shape that is in reduced row-echelon form, and its
/// record names rows of the matrix only.
pub proof fn lemma_reduce_rref(m: Table, r: int, lead: int)
    requires
        reduced_upto(m, r, lead),
    ensures
        is_gf2(reduce_from(m, r, lead).0),
        reduce_from(m, r, lead).0.len() == m.len(),
        num_cols(reduce_from(m, r, lead).0) == num_cols(m),
        is_rref(reduce_from(m, r, lead).0),
        ops_within(reduce_from(m, r, lead).1, m.len()),
    decreases m.len() - r, num_cols(m) - lead,
{
    if r >= m.len() || lead >= num_cols(m) {
        assert forall|i: int| 0 <= i < m.len() implies #[trigger] rref_row(m, i) by {
            if i < r {
                assert(settled_row(m, i, lead));
            } else {
                assert(zero_left(m[i], lead));
                assert(m[i].len() == num_cols(m));
                assert(has_no_one(m[i]));
                lemma_pivot_none(m[i]);
            }
        }
    } else {
        lemma_find_row(m, lead, r);
        let i = find_row(m, lead, r);
        if i >= m.len() {
            assert forall|k: int| r <= k < m.len() implies zero_left(#[trigger] m[k], lead + 1) by {
                assert(zero_left(m[k], lead));
                assert(m[k][lead] == 0);
            }
            assert forall|k: int| 0 <= k < r implies #[trigger] settled_row(m, k, lead + 1) by {
                assert(settled_row(m, k, lead));
            }
            lemma_reduce_rref(m, r, lead + 1);
        } else {
            let exchanged = swapped(m, r, i);
            lemma_swap_keeps(m, r, i, lead);
            assert(binary_row(m[i]));
            assert(m[i].len() == num_cols(m));
            assert(exchanged[r][lead] == 1);
            let cleared = eliminated(exchanged, r, lead);
            lemma_eliminate_settles(exchanged, r, lead);
            lemma_reduce_rref(cleared, r + 1, lead + 1);
            lemma_elimination_ops_within(exchanged, r, lead, m.len() as int);
        }
    }
}

/// Around a row whose column `lead` is clear in the other rows, the
/// elimination records nothing.
pub proof fn lemma_elimination_ops_none(m: Table, r: int, lead: int, upto: int)
    requires
        upto <= m.len(),
        column_clear_but(m, lead, r),
    ensures
        elimination_ops(m, r, lead, upto) == Seq::<RowOp>::empty(),
    decreases upto,
{
    if upto > 0 {
        lemma_elimination_ops_none(m, r, lead, upto - 1);
        if upto - 1 != r {
            assert(m[upto - 1][lead] == 0);
        }
    }
}

/// On a matrix in reduced row-echelon form the elimination changes nothing
/// and records nothing.
pub proof fn lemma_reduce_fixed(m: Table, r: int, lead: int)
    requires
        is_rref(m),
        reduced_upto(m, r, lead),
    ensures
        reduce_from(m, r, lead) == (m, Seq::<RowOp>::empty()),
    decreases m.len() - r, num_cols(m) - lead,
{
    if r >= m.len() || lead >= num_cols(m) {
    } else {
        lemma_find_row(m, lead, r);
        let i = find_row(m, lead, r);
        if i >= m.len() {
            assert forall|k: int| r <= k < m.len() implies zero_left(#[trigger] m[k], lead + 1) by {
                assert(zero_left(m[k], lead));
                assert(m[k][lead] == 0);
            }
            assert forall|k: int| 0 <= k < r implies #[trigger] settled_row(m, k, lead + 1) by {
                assert(settled_row(m, k, lead));
            }
            lemma_reduce_fixed(m, r, lead + 1);
        } else {
            assert(binary_row(m[i]));
            assert(m[i].len() == num_cols(m));
            assert(zero_left(m[i], lead));
            assert(is_pivot(m[i], lead));
            lemma_pivot_is(m[i], lead);
            assert(rref_row(m, i));
            if i > r {
                assert(leads_before(m[r], lead));
                lemma_pivot_cases(m[r]);
                assert(zero_left(m[r], lead));
                assert(false);
            }
            assert(column_clear_but(m, lead, r));
            let exchanged = swapped(m, r, i);
            assert(exchanged =~= m);
            let cleared = eliminated(exchanged, r, lead);
            assert forall|j: int| 0 <= j < m.len() implies #[trigger] cleared[j] == m[j] by {
                if j != r {
                    assert(m[j][lead] == 0);
                }
            }
            assert(cleared =~= m);
            lemma_elimination_ops_none(m, r, lead, m.len() as int);
            assert forall|k: int| r + 1 <= k < m.len() implies zero_left(
                #[trigger] m[k],
                lead + 1,
            ) by {
                assert(zero_left(m[k], lead));
                assert(m[k][lead] == 0);
            }
            assert forall|k: int| 0 <= k < r + 1 implies #[trigger] settled_row(m, k, lead + 1) by {
                if k < r {
                    assert(settled_row(m, k, lead));
                } else {
                    assert(rref_row(m, r));
                }
            }
            lemma_reduce_fixed(m, r + 1, lead + 1);
            assert(swap_ops(r, i) + elimination_ops(exchanged, r, lead, m.len() as int)
                + Seq::<RowOp>::empty() =~= Seq::<RowOp>::empty());
        }
    }
}

/// The reduced row-echelon form of a matrix over GF(2) is a matrix over
/// GF(2) of the same shape, it is in reduced row-echelon form, and the
/// record that leads to it names rows of the matrix only.
pub proof fn lemma_echelon(m: Table)
    requires
        is_gf2(m),
    ensures
        is_gf2(rref(m)),
        rref(m).len() == m.len(),
        num_cols(rref(m)) == num_cols(m),
        is_rref(rref(m)),
        ops_within(history(m), m.len()),
{
    lemma_reduce_rref(m, 0, 0);
}

/// A matrix in reduced row-echelon form is its own reduced row-echelon
/// form, reached without a row operation.
pub proof fn lemma_rref_fixed(m: Table)
    requires
        is_gf2(m),
        is_rref(m),
    ensures
        echelon(m) == (m, Seq::<RowOp>::empty()),
{
    lemma_reduce_fixed(m, 0, 0);
}

} // verus!
