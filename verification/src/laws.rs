//! What holds of the operations on every matrix over GF(2).

use vstd::prelude::*;
use crate::kernel::lemma_free_columns;
use crate::matrix::num_cols;
use crate::model::{
    annihilates, binary_row, column, free_columns, history, image_of, is_gf2, is_rref,
    kernel_of, rank_of, replay, rref, solve_of, times, unit, RowOp, Table,
};
use crate::solving::lemma_full_rank_product;
use crate::replay::{lemma_column_is_product, lemma_replay_reduce};
use crate::nullspace::{lemma_kernel_vector_annihilated, lemma_reduce_annihilates};
use crate::rank::{lemma_count_free_columns, lemma_count_pivot_rows, lemma_count_pivots_bound};
use crate::reduction::{lemma_echelon, lemma_reduced_upto_start, lemma_rref_fixed};

verus! {

/// Reducing a matrix twice gives what reducing it once gives.
pub proof fn law_echelon_idempotent(m: Table)
    requires
        is_gf2(m),
    ensures
        rref(rref(m)) == rref(m),
{
    lemma_echelon(m);
    lemma_rref_fixed(rref(m));
}

/// A matrix in reduced row-echelon form is reduced without a row operation,
/// and is left as it is.
pub proof fn law_reduced_needs_no_operation(m: Table)
    requires
        is_gf2(m),
        is_rref(m),
    ensures
        history(m) == Seq::<RowOp>::empty(),
        rref(m) == m,
{
    lemma_rref_fixed(m);
}

/// The rank of a matrix is at most the number of its rows and at most the
/// number of its columns, and it is the rank of its reduced row-echelon
/// form.
pub proof fn law_rank(m: Table)
    requires
        is_gf2(m),
    ensures
        rank_of(m) <= m.len(),
        rank_of(m) <= num_cols(m),
        rank_of(rref(m)) == rank_of(m),
{
    lemma_echelon(m);
    lemma_count_pivots_bound(rref(m));
    law_echelon_idempotent(m);
}

/// Each vector of the kernel basis of a matrix is sent to zero by the
/// reduced row-echelon form of the matrix, and by the matrix itself.
pub proof fn law_kernel_annihilated(m: Table, k: int)
    requires
        is_gf2(m),
        0 <= k < kernel_of(m).len(),
    ensures
        annihilates(rref(m), kernel_of(m)[k]),
        annihilates(m, kernel_of(m)[k]),
{
    lemma_echelon(m);
    let e = rref(m);
    lemma_free_columns(e, num_cols(e) as int);
    let f = free_columns(e, num_cols(e) as int)[k];
    lemma_kernel_vector_annihilated(e, f);
    lemma_reduced_upto_start(m);
    lemma_reduce_annihilates(m, 0, 0, kernel_of(m)[k]);
}

/// The kernel basis and the rank of a matrix add up to the number of its
/// columns.
pub proof fn law_rank_nullity(m: Table)
    requires
        is_gf2(m),
    ensures
        kernel_of(m).len() + rank_of(m) == num_cols(m),
{
    lemma_echelon(m);
    lemma_count_free_columns(rref(m));
}

/// The image basis of a matrix has as many vectors as the rank of the
/// matrix says.
pub proof fn law_image_size(m: Table)
    requires
        is_gf2(m),
    ensures
        image_of(m).len() == rank_of(m),
{
    lemma_echelon(m);
    let e = rref(m);
    lemma_count_pivot_rows(e, e.len() as int);
    assert(e.take(e.len() as int) =~= e);
}

/// The record of a reduction, replayed on a column of the matrix, gives
/// that column of its reduced row-echelon form: the record makes on a
/// vector what the reduction made on the matrix.
pub proof fn law_history_replays(m: Table, c: int)
    requires
        is_gf2(m),
        m.len() <= usize::MAX,
        0 <= c < num_cols(m),
    ensures
        replay(history(m), column(m, c)) == column(rref(m), c),
{
    lemma_echelon(m);
    lemma_reduced_upto_start(m);
    lemma_replay_reduce(m, 0, 0, unit(num_cols(m), c));
    lemma_column_is_product(m, c);
    lemma_column_is_product(rref(m), c);
}

/// For a matrix `m` of full column rank, the solver finds the `y` behind
/// every right-hand side `m * y`: a system that has a solution is solved
/// by the one that the solver returns.
pub proof fn law_solve_recovers(m: Table, y: Seq<u8>)
    requires
        is_gf2(m),
        m.len() <= usize::MAX,
        rank_of(m) == num_cols(m),
        binary_row(y),
        y.len() == num_cols(m),
    ensures
        solve_of(m, times(m, y)) == y,
{
    lemma_echelon(m);
    lemma_reduced_upto_start(m);
    lemma_replay_reduce(m, 0, 0, y);
    lemma_full_rank_product(rref(m), y);
}

} // verus!
