//! Products of rows and vectors.

use vstd::prelude::*;
use crate::model::{add_bits, add_rows, binary_row, dot, unit};

verus! {

/// The product with a prefix of a row, one column longer.
pub proof fn lemma_dot_step(row: Seq<u8>, v: Seq<u8>, n: int)
    requires
        0 < n <= row.len(),
    ensures
        dot(row.take(n), v) == dot(row.take(n - 1), v) + row[n - 1] * v[n - 1],
{
    assert(row.take(n).drop_last() =~= row.take(n - 1));
    assert(row.take(n).last() == row[n - 1]);
}

/// The product of a sum of two rows with a vector differs from the sum of
/// their products by an even number.
pub proof fn lemma_dot_add_rows(a: Seq<u8>, b: Seq<u8>, v: Seq<u8>)
    requires
        binary_row(a),
        binary_row(b),
        a.len() == b.len(),
    ensures
        (dot(add_rows(a, b), v) - dot(a, v) - dot(b, v)) % 2 == 0,
    decreases a.len(),
{
    if a.len() > 0 {
        let s = add_rows(a, b);
        let n = a.len() - 1;
        assert(s.drop_last() =~= add_rows(a.drop_last(), b.drop_last()));
        assert(binary_row(a.drop_last())) by {
            assert forall|j: int| 0 <= j < a.drop_last().len() implies #[trigger] a.drop_last()[j]
                <= 1 by {
                assert(a.drop_last()[j] == a[j]);
            }
        }
        assert(binary_row(b.drop_last())) by {
            assert forall|j: int| 0 <= j < b.drop_last().len() implies #[trigger] b.drop_last()[j]
                <= 1 by {
                assert(b.drop_last()[j] == b[j]);
            }
        }
        lemma_dot_add_rows(a.drop_last(), b.drop_last(), v);
        let x = a[n];
        let y = b[n];
        let w = v[n] as int;
        assert(a.last() == x && b.last() == y && s.last() == add_bits(x, y));
        assert(x <= 1 && y <= 1);
        let diff = add_bits(x, y) * w - x * w - y * w;
        assert(diff == 0 || diff == -2 * w) by {
            if x == 0 && y == 0 {
                assert(add_bits(x, y) == 0);
                assert(diff == 0) by (nonlinear_arith)
                    requires
                        diff == add_bits(x, y) * w - x * w - y * w,
                        add_bits(x, y) == 0,
                        x == 0,
                        y == 0,
                ;
            } else if x == 1 && y == 1 {
                assert(add_bits(x, y) == 0);
                assert(diff == -2 * w) by (nonlinear_arith)
                    requires
                        diff == add_bits(x, y) * w - x * w - y * w,
                        add_bits(x, y) == 0,
                        x == 1,
                        y == 1,
                ;
            } else {
                assert(add_bits(x, y) == 1);
                assert(diff == 0) by (nonlinear_arith)
                    requires
                        diff == add_bits(x, y) * w - x * w - y * w,
                        add_bits(x, y) == 1,
                        x + y == 1,
                        0 <= x,
                        0 <= y,
                ;
            }
        }
    }
}

/// The product of a vector with the first `n` entries of a row that is
/// zero outside column `c`.
pub proof fn lemma_dot_single_entry(row: Seq<u8>, v: Seq<u8>, c: int, n: int)
    requires
        0 <= n <= row.len(),
        forall|j: int| 0 <= j < row.len() && j != c ==> #[trigger] row[j] == 0,
    ensures
        dot(row.take(n), v) == if 0 <= c < n {
            row[c] * v[c]
        } else {
            0
        },
    decreases n,
{
    if n == 0 {
        assert(row.take(0) =~= Seq::<u8>::empty());
    } else {
        lemma_dot_single_entry(row, v, c, n - 1);
        lemma_dot_step(row, v, n);
        if n - 1 != c {
            assert(row[n - 1] == 0);
            assert(row[n - 1] * v[n - 1] == 0) by (nonlinear_arith)
                requires
                    row[n - 1] == 0,
            ;
        }
    }
}

/// The product of the first `n` entries of a row with a unit vector.
pub proof fn lemma_dot_unit(row: Seq<u8>, c: int, n: int)
    requires
        0 <= n <= row.len(),
    ensures
        dot(row.take(n), unit(row.len(), c)) == if 0 <= c < n {
            row[c] as int
        } else {
            0
        },
    decreases n,
{
    let v = unit(row.len(), c);
    if n == 0 {
        assert(row.take(0) =~= Seq::<u8>::empty());
    } else {
        lemma_dot_unit(row, c, n - 1);
        lemma_dot_step(row, v, n);
        if n - 1 == c {
            assert(row[n - 1] * v[n - 1] == row[n - 1]) by (nonlinear_arith)
                requires
                    v[n - 1] == 1,
            ;
        } else {
            assert(row[n - 1] * v[n - 1] == 0) by (nonlinear_arith)
                requires
                    v[n - 1] == 0,
            ;
        }
    }
}

} // verus!
