//! Why the kernel vectors are in the kernel.

use vstd::prelude::*;
use crate::kernel::lemma_pivot_row_is;
use crate::products::{lemma_dot_add_rows, lemma_dot_step};
use crate::matrix::num_cols;
use crate::model::{
    annihilates, binary_row, column_clear_but, dot, eliminated, find_row, is_eliminated, is_gf2,
    is_pivot_column, is_rref, kernel_vector, pivot, pivot_row, reduce_from, rref_row, swapped,
    Table,
};
use crate::pivots::lemma_pivot_cases;
use crate::reduction::{
    lemma_eliminate_settles, lemma_find_row, lemma_swap_keeps, reduced_upto, settled_row,
    zero_left,
};

verus! {

/// A vector that the matrix after an elimination sends to zero is sent to
/// zero by the matrix before it.
pub proof fn lemma_eliminate_annihilates(m: Table, r: int, lead: int, v: Seq<u8>)
    requires
        is_gf2(m),
        0 <= r < m.len(),
        annihilates(eliminated(m, r, lead), v),
    ensures
        annihilates(m, v),
{
    let e = eliminated(m, r, lead);
    assert(e[r] == m[r]);
    assert(dot(e[r], v) % 2 == 0);
    assert forall|i: int| 0 <= i < m.len() implies dot(#[trigger] m[i], v) % 2 == 0 by {
        assert(dot(e[i], v) % 2 == 0);
        if is_eliminated(m, r, lead, i) {
            assert(binary_row(m[i]));
            assert(binary_row(m[r]));
            assert(m[i].len() == num_cols(m));
            assert(m[r].len() == num_cols(m));
            lemma_dot_add_rows(m[i], m[r], v);
        }
    }
}

/// A vector that the matrix at the end of the elimination sends to zero is
/// sent to zero by the matrix at each state of it.
pub proof fn lemma_reduce_annihilates(m: Table, r: int, lead: int, v: Seq<u8>)
    requires
        reduced_upto(m, r, lead),
        annihilates(reduce_from(m, r, lead).0, v),
    ensures
        annihilates(m, v),
    decreases m.len() - r, num_cols(m) - lead,
{
    if r >= m.len() || lead >= num_cols(m) {
    } else {
        lemma_find_row(m, lead, r);
        let i = find_row(m, lead, r);
        if i >= m.len() {
            assert forall|k: int| r <= k < m.len() implies zero_left(#[trigger] m[k], lead + 1) by {
                assert(zero_left(m[k], lead));
                assert(m[k][lead] == 0);
            }
            assert forall|k: int| 0 <= k < r implies #[trigger] settled_row(m, k, lead + 1) by {
                assert(settled_row(m, k, lead));
            }
            lemma_reduce_annihilates(m, r, lead + 1, v);
        } else {
            let exchanged = swapped(m, r, i);
            lemma_swap_keeps(m, r, i, lead);
            assert(binary_row(m[i]));
            assert(m[i].len() == num_cols(m));
            assert(exchanged[r][lead] == 1);
            let cleared = eliminated(exchanged, r, lead);
            lemma_eliminate_settles(exchanged, r, lead);
            lemma_reduce_annihilates(cleared, r + 1, lead + 1, v);
            lemma_eliminate_annihilates(exchanged, r, lead, v);
            assert forall|k: int| 0 <= k < m.len() implies dot(#[trigger] m[k], v) % 2 == 0 by {
                if k == r {
                    assert(exchanged[i] == m[r]);
                } else if k == i {
                    assert(exchanged[r] == m[i]);
                } else {
                    assert(exchanged[k] == m[k]);
                }
            }
        }
    }
}

/// The product of the first `n` entries of a row of a matrix in reduced
/// row-echelon form with the kernel vector of the free column `f`: the
/// entry of the row in column `f`, once for the pivot of the row and once
/// for column `f`, as far as they are among the first `n`.
proof fn lemma_dot_kernel_vector(m: Table, i: int, f: int, n: int)
    requires
        is_gf2(m),
        is_rref(m),
        0 <= i < m.len(),
        0 <= f < num_cols(m),
        !is_pivot_column(m, f),
        0 <= n <= num_cols(m),
    ensures
        dot(m[i].take(n), kernel_vector(m, f)) == (match pivot(m[i]) {
            Some(p) => if p < n {
                m[i][f] as int
            } else {
                0
            },
            None => 0,
        }) + (if f < n && pivot(m[i]) is Some {
            m[i][f] as int
        } else {
            0
        }),
    decreases n,
{
    let row = m[i];
    let kv = kernel_vector(m, f);
    assert(row.len() == num_cols(m));
    assert(binary_row(row));
    if n == 0 {
        assert(row.take(0) =~= Seq::<u8>::empty());
    } else {
        lemma_dot_kernel_vector(m, i, f, n - 1);
        lemma_dot_step(row, kv, n);
        lemma_pivot_cases(row);
        let c = n - 1;
        let term = row[c] * kv[c];
        match pivot(row) {
            Some(p) => {
                lemma_pivot_row_is(m, i, p);
                if c == p {
                    assert(kv[c] == m[i][f]);
                    assert(term == m[i][f]) by (nonlinear_arith)
                        requires
                            term == row[c] * kv[c],
                            row[c] == 1,
                            kv[c] == m[i][f],
                    ;
                } else if c == f {
                    assert(term == m[i][f]) by (nonlinear_arith)
                        requires
                            term == row[c] * kv[c],
                            kv[c] == 1,
                            row[c] == m[i][f],
                    ;
                } else {
                    if is_pivot_column(m, c) {
                        let k = pivot_row(m, c);
                        assert(rref_row(m, k));
                        assert(column_clear_but(m, c, k));
                        assert(k != i);
                        assert(row[c] == 0);
                    } else {
                        assert(kv[c] == 0);
                    }
                    assert(term == 0) by (nonlinear_arith)
                        requires
                            term == row[c] * kv[c],
                            row[c] == 0 || kv[c] == 0,
                    ;
                }
            },
            None => {
                assert(row[c] == 0);
                assert(term == 0) by (nonlinear_arith)
                    requires
                        term == row[c] * kv[c],
                        row[c] == 0,
                ;
            },
        }
    }
}

/// A matrix in reduced row-echelon form sends the kernel vector of each of
/// its free columns to zero.
pub proof fn lemma_kernel_vector_annihilated(m: Table, f: int)
    requires
        is_gf2(m),
        is_rref(m),
        0 <= f < num_cols(m),
        !is_pivot_column(m, f),
    ensures
        annihilates(m, kernel_vector(m, f)),
{
    assert forall|i: int| 0 <= i < m.len() implies dot(#[trigger] m[i], kernel_vector(m, f)) % 2
        == 0 by {
        lemma_dot_kernel_vector(m, i, f, num_cols(m) as int);
        assert(m[i].len() == num_cols(m));
        assert(m[i].take(num_cols(m) as int) =~= m[i]);
        lemma_pivot_cases(m[i]);
    }
}

} // verus!
