//! Replaying a record of row operations on a vector.

use vstd::prelude::*;
use crate::matrix::num_cols;
use crate::model::{
    add_bits, apply_op, binary_row, column, eliminated, elimination_ops, find_row, is_eliminated,
    is_gf2, reduce_from, replay, swap_ops, swapped, times, unit, RowOp, Table,
};
use crate::products::{lemma_dot_add_rows, lemma_dot_unit};
use crate::reduction::{
    lemma_eliminate_settles, lemma_find_row, lemma_swap_keeps, reduced_upto, settled_row,
    zero_left,
};

verus! {

/// Replaying two records one after the other is replaying them joined.
pub proof fn lemma_replay_concat(first: Seq<RowOp>, second: Seq<RowOp>, v: Seq<u8>)
    ensures
        replay(first + second, v) == replay(second, replay(first, v)),
    decreases second.len(),
{
    if second.len() == 0 {
        assert(first + second =~= first);
    } else {
        assert((first + second).drop_last() =~= first + second.drop_last());
        assert((first + second).last() == second.last());
        lemma_replay_concat(first, second.drop_last(), v);
    }
}

/// On bits, the sum in GF(2) is the exclusive or.
pub proof fn lemma_xor_bits(a: u8, b: u8)
    requires
        a <= 1,
        b <= 1,
    ensures
        a ^ b == add_bits(a, b),
{
    assert((a ^ b) == (a + b) % 2) by (bit_vector)
        requires
            a <= 1,
            b <= 1,
    ;
}

/// The three additions that record an exchange of rows exchange the two
/// entries of a vector.
pub proof fn lemma_replay_swap(v: Seq<u8>, a: int, b: int)
    requires
        0 <= a < v.len(),
        0 <= b < v.len(),
        v.len() <= usize::MAX,
    ensures
        replay(swap_ops(a, b), v) == v.update(a, v[b]).update(b, v[a]),
{
    if a == b {
        assert(v.update(a, v[b]).update(b, v[a]) =~= v);
    } else {
        let ops = swap_ops(a, b);
        let x = v[a];
        let y = v[b];
        let one = ops.drop_last().drop_last();
        let two = ops.drop_last();
        assert(one.len() == 1 && one.drop_last().len() == 0);
        assert(replay(one.drop_last(), v) == v);
        let v1 = replay(one, v);
        assert(one.last() == (a as usize, b as usize));
        assert(v1 == v.update(a, x ^ y));
        let v2 = replay(two, v);
        assert(two.last() == (b as usize, a as usize));
        assert(v2 == v1.update(b, y ^ (x ^ y)));
        let v3 = replay(ops, v);
        assert(ops.last() == (a as usize, b as usize));
        assert(v3 == v2.update(a, (x ^ y) ^ (y ^ (x ^ y))));
        assert(y ^ (x ^ y) == x && (x ^ y) ^ (y ^ (x ^ y)) == y) by (bit_vector);
        assert(v3 =~= v.update(a, v[b]).update(b, v[a]));
    }
}

/// The product of `m` and `y` while the elimination around row `r` has
/// reached row `upto`.
pub open spec fn partly_eliminated(m: Table, r: int, lead: int, upto: int, y: Seq<u8>) -> Seq<u8> {
    Seq::new(
        m.len(),
        |k: int|
            if k < upto {
                times(eliminated(m, r, lead), y)[k]
            } else {
                times(m, y)[k]
            },
    )
}

/// Replaying the record of an elimination on the product of the matrix and
/// a vector gives the product of the matrix after the elimination and that
/// vector.
pub proof fn lemma_replay_elimination(m: Table, r: int, lead: int, upto: int, y: Seq<u8>)
    requires
        is_gf2(m),
        0 <= r < m.len(),
        0 <= upto <= m.len(),
        m.len() <= usize::MAX,
    ensures
        replay(elimination_ops(m, r, lead, upto), times(m, y)) == partly_eliminated(
            m,
            r,
            lead,
            upto,
            y,
        ),
    decreases upto,
{
    if upto == 0 {
        assert(times(m, y) =~= partly_eliminated(m, r, lead, 0, y));
    } else {
        let i = upto - 1;
        lemma_replay_elimination(m, r, lead, i, y);
        let before = partly_eliminated(m, r, lead, i, y);
        let after = partly_eliminated(m, r, lead, upto, y);
        if is_eliminated(m, r, lead, i) {
            let ops = elimination_ops(m, r, lead, upto);
            assert(ops.drop_last() =~= elimination_ops(m, r, lead, i));
            assert(ops.last() == (i as usize, r as usize));
            assert(before[i] == times(m, y)[i]);
            assert(before[r] == times(m, y)[r]);
            assert(binary_row(m[i]));
            assert(binary_row(m[r]));
            assert(m[i].len() == num_cols(m));
            assert(m[r].len() == num_cols(m));
            lemma_dot_add_rows(m[i], m[r], y);
            lemma_xor_bits(times(m, y)[i], times(m, y)[r]);
            assert(apply_op(before, (i as usize, r as usize)) =~= after);
        } else {
            assert(before =~= after);
        }
    }
}

/// Replaying the record of the rest of the elimination on the product of
/// the matrix at one of its states and a vector gives the product of the
/// matrix at the end and that vector.
pub proof fn lemma_replay_reduce(m: Table, r: int, lead: int, y: Seq<u8>)
    requires
        reduced_upto(m, r, lead),
        m.len() <= usize::MAX,
    ensures
        replay(reduce_from(m, r, lead).1, times(m, y)) == times(reduce_from(m, r, lead).0, y),
    decreases m.len() - r, num_cols(m) - lead,
{
    if r >= m.len() || lead >= num_cols(m) {
    } else {
        lemma_find_row(m, lead, r);
        let i = find_row(m, lead, r);
        if i >= m.len() {
            assert forall|k: int| r <= k < m.len() implies zero_left(#[trigger] m[k], lead + 1) by {
                assert(zero_left(m[k], lead));
                assert(m[k][lead] == 0);
            }
            assert forall|k: int| 0 <= k < r implies #[trigger] settled_row(m, k, lead + 1) by {
                assert(settled_row(m, k, lead));
            }
            lemma_replay_reduce(m, r, lead + 1, y);
        } else {
            let exchanged = swapped(m, r, i);
            lemma_swap_keeps(m, r, i, lead);
            assert(binary_row(m[i]));
            assert(m[i].len() == num_cols(m));
            assert(exchanged[r][lead] == 1);
            let cleared = eliminated(exchanged, r, lead);
            lemma_eliminate_settles(exchanged, r, lead);
            lemma_replay_reduce(cleared, r + 1, lead + 1, y);
            let rest = reduce_from(cleared, r + 1, lead + 1);
            let swaps = swap_ops(r, i);
            let clears = elimination_ops(exchanged, r, lead, m.len() as int);
            let v = times(m, y);
            lemma_replay_swap(v, r, i);
            assert(v.update(r, v[i]).update(i, v[r]) =~= times(exchanged, y));
            lemma_replay_elimination(exchanged, r, lead, m.len() as int, y);
            assert(partly_eliminated(exchanged, r, lead, m.len() as int, y) =~= times(
                cleared,
                y,
            ));
            lemma_replay_concat(swaps, clears, v);
            lemma_replay_concat(swaps + clears, rest.1, v);
        }
    }
}

/// A column of a matrix over GF(2) is the product of the matrix and a unit
/// vector.
pub proof fn lemma_column_is_product(m: Table, c: int)
    requires
        is_gf2(m),
        0 <= c < num_cols(m),
    ensures
        column(m, c) == times(m, unit(num_cols(m), c)),
{
    assert forall|i: int| 0 <= i < m.len() implies #[trigger] column(m, c)[i] == times(
        m,
        unit(num_cols(m), c),
    )[i] by {
        assert(m[i].len() == num_cols(m));
        assert(binary_row(m[i]));
        lemma_dot_unit(m[i], c, num_cols(m) as int);
        assert(m[i].take(num_cols(m) as int) =~= m[i]);
    }
    assert(column(m, c) =~= times(m, unit(num_cols(m), c)));
}

} // verus!
