//! The mathematical model of matrices over GF(2): tables of bits as
//! sequences of sequences, and the functions of them that the library
//! computes.

use vstd::prelude::*;
use crate::matrix::num_cols;

verus! {

/// A table of bits, row by row.
pub type Table = Seq<Seq<u8>>;

/// A recorded row operation `(target, source)`: add row `source` into row
/// `target`.
pub type RowOp = (usize, usize);

/// Whether all rows of `m` have the same length.
pub open spec fn rectangular(m: Table) -> bool {
    forall|i: int| 0 <= i < m.len() ==> (#[trigger] m[i]).len() == num_cols(m)
}

/// Whether every entry of `row` is 0 or 1.
pub open spec fn binary_row(row: Seq<u8>) -> bool {
    forall|j: int| 0 <= j < row.len() ==> #[trigger] row[j] <= 1
}

/// Whether every entry of `m` is 0 or 1.
pub open spec fn binary(m: Table) -> bool {
    forall|i: int| 0 <= i < m.len() ==> binary_row(#[trigger] m[i])
}

/// A matrix over GF(2): a rectangular table of bits.
pub open spec fn is_gf2(m: Table) -> bool {
    rectangular(m) && binary(m)
}

/// Whether `p` is the position of the first 1 in `row`.
pub open spec fn is_pivot(row: Seq<u8>, p: int) -> bool {
    &&& 0 <= p < row.len()
    &&& row[p] == 1
    &&& forall|j: int| 0 <= j < p ==> #[trigger] row[j] != 1
}

/// Whether `row` holds no 1.
pub open spec fn has_no_one(row: Seq<u8>) -> bool {
    forall|j: int| 0 <= j < row.len() ==> #[trigger] row[j] != 1
}

/// The pivot of `row`: the position of its first 1, if it has one.
pub open spec fn pivot(row: Seq<u8>) -> Option<int> {
    if exists|p: int| is_pivot(row, p) {
        Some(choose|p: int| is_pivot(row, p))
    } else {
        None
    }
}

/// Whether `row` has a pivot, and it lies left of column `p`.
pub open spec fn leads_before(row: Seq<u8>, p: int) -> bool {
    match pivot(row) {
        Some(q) => q < p,
        None => false,
    }
}

/// Whether column `p` of `m` is zero in every row but row `i`.
pub open spec fn column_clear_but(m: Table, p: int, i: int) -> bool {
    forall|j: int| 0 <= j < m.len() && j != i ==> (#[trigger] m[j])[p] == 0
}

/// The condition that reduced row-echelon form puts on row `i` of `m`: if
/// the row has a pivot, then every row above it has a pivot further left,
/// and the pivot's column is zero in every other row.
pub open spec fn rref_row(m: Table, i: int) -> bool {
    match pivot(m[i]) {
        Some(p) => {
            &&& forall|k: int| 0 <= k < i ==> leads_before(#[trigger] m[k], p)
            &&& column_clear_but(m, p, i)
        },
        None => true,
    }
}

/// Whether `m` is in reduced row-echelon form: pivots move strictly to the
/// right from row to row, rows without a pivot come last, and each pivot is
/// the only non-zero entry of its column.
pub open spec fn is_rref(m: Table) -> bool {
    forall|i: int| 0 <= i < m.len() ==> #[trigger] rref_row(m, i)
}

/// The sum of two entries in GF(2).
pub open spec fn add_bits(a: u8, b: u8) -> u8 {
    ((a + b) % 2) as u8
}

/// The entry-wise sum of two rows in GF(2); the result is as long as `a`.
pub open spec fn add_rows(a: Seq<u8>, b: Seq<u8>) -> Seq<u8> {
    Seq::new(a.len(), |j: int| add_bits(a[j], b[j]))
}

/// `m` with rows `a` and `b` exchanged.
pub open spec fn swapped(m: Table, a: int, b: int) -> Table {
    Seq::new(
        m.len(),
        |k: int|
            if k == a {
                m[b]
            } else if k == b {
                m[a]
            } else {
                m[k]
            },
    )
}

/// The record of exchanging rows `a` and `b`: three additions that
/// together exchange two entries of a vector, and nothing where `a == b`.
pub open spec fn swap_ops(a: int, b: int) -> Seq<RowOp> {
    if a == b {
        Seq::empty()
    } else {
        seq![(a as usize, b as usize), (b as usize, a as usize), (a as usize, b as usize)]
    }
}

/// The first row at or below `from` whose entry in column `lead` is not
/// zero; `m.len()` if there is none.
pub open spec fn find_row(m: Table, lead: int, from: int) -> int
    decreases m.len() - from,
{
    if from >= m.len() {
        m.len() as int
    } else if m[from][lead] != 0 {
        from
    } else {
        find_row(m, lead, from + 1)
    }
}

/// Whether row `i` is one that the elimination around row `r` changes: any
/// other row with a 1 in column `lead`.
pub open spec fn is_eliminated(m: Table, r: int, lead: int, i: int) -> bool {
    i != r && m[i][lead] == 1
}

/// `m` after row `r` was added into every other row that has a 1 in column
/// `lead`.
pub open spec fn eliminated(m: Table, r: int, lead: int) -> Table {
    Seq::new(
        m.len(),
        |i: int|
            if is_eliminated(m, r, lead, i) {
                add_rows(m[i], m[r])
            } else {
                m[i]
            },
    )
}

/// The record of the elimination around row `r` in the first `upto` rows:
/// `(i, r)` for each row `i` that it changes, in increasing order of `i`.
pub open spec fn elimination_ops(m: Table, r: int, lead: int, upto: int) -> Seq<RowOp>
    decreases upto,
{
    if upto <= 0 {
        Seq::empty()
    } else {
        let before = elimination_ops(m, r, lead, upto - 1);
        if is_eliminated(m, r, lead, upto - 1) {
            before.push(((upto - 1) as usize, r as usize))
        } else {
            before
        }
    }
}

/// Gauss-Jordan elimination from row `r` and column `lead` on: the matrix it
/// ends with, and the record of the row operations it makes.
///
/// In column `lead` it looks for the first row at or below `r` with a
/// non-zero entry. Without one it goes on with the next column. Otherwise it
/// exchanges that row with row `r`, adds row `r` into every other row that
/// has a 1 in the column, and goes on with the next row and column.
pub open spec fn reduce_from(m: Table, r: int, lead: int) -> (Table, Seq<RowOp>)
    decreases m.len() - r, num_cols(m) - lead,
{
    if r < 0 || lead < 0 || r >= m.len() || lead >= num_cols(m) {
        (m, Seq::empty())
    } else {
        let i = find_row(m, lead, r);
        if i >= m.len() {
            reduce_from(m, r, lead + 1)
        } else {
            let exchanged = swapped(m, r, i);
            let cleared = eliminated(exchanged, r, lead);
            proof {
                assert(cleared.len() == m.len());
            }
            let rest = reduce_from(cleared, r + 1, lead + 1);
            (
                rest.0,
                swap_ops(r, i) + elimination_ops(exchanged, r, lead, m.len() as int) + rest.1,
            )
        }
    }
}

/// The reduced row-echelon form of `m`, and the row operations that lead
/// to it.
pub open spec fn echelon(m: Table) -> (Table, Seq<RowOp>) {
    reduce_from(m, 0, 0)
}

/// The reduced row-echelon form of `m`.
pub open spec fn rref(m: Table) -> Table {
    echelon(m).0
}

/// The row operations by which `m` becomes its reduced row-echelon form.
pub open spec fn history(m: Table) -> Seq<RowOp> {
    echelon(m).1
}

/// Whether every row operation of `ops` names rows below `n`.
pub open spec fn ops_within(ops: Seq<RowOp>, n: nat) -> bool {
    forall|k: int| 0 <= k < ops.len() ==> (#[trigger] ops[k]).0 < n && ops[k].1 < n
}

/// `v` after one row operation: entry `op.1` is added into entry `op.0`.
pub open spec fn apply_op(v: Seq<u8>, op: RowOp) -> Seq<u8> {
    v.update(op.0 as int, v[op.0 as int] ^ v[op.1 as int])
}

/// `v` after the row operations of `ops`, made in the order of the record.
pub open spec fn replay(ops: Seq<RowOp>, v: Seq<u8>) -> Seq<u8>
    decreases ops.len(),
{
    if ops.len() == 0 {
        v
    } else {
        apply_op(replay(ops.drop_last(), v), ops.last())
    }
}

/// Column `c` of `m`, from the first row to the last.
pub open spec fn column(m: Table, c: int) -> Seq<u8> {
    Seq::new(m.len(), |i: int| m[i][c])
}

/// The pivot columns of the first `upto` rows of `m`.
pub open spec fn pivot_columns(m: Table, upto: int) -> Set<int>
    decreases upto,
{
    if upto <= 0 {
        Set::empty()
    } else {
        match pivot(m[upto - 1]) {
            Some(c) => pivot_columns(m, upto - 1).insert(c),
            None => pivot_columns(m, upto - 1),
        }
    }
}

/// The number of distinct pivot columns of `m`.
pub open spec fn count_pivots(m: Table) -> nat {
    pivot_columns(m, m.len() as int).len()
}

/// The rank of `m`: the number of pivot columns of its reduced row-echelon
/// form.
pub open spec fn rank_of(m: Table) -> nat {
    count_pivots(rref(m))
}

/// Whether `c` is the pivot column of some row of `m`.
pub open spec fn is_pivot_column(m: Table, c: int) -> bool {
    exists|i: int| 0 <= i < m.len() && #[trigger] pivot(m[i]) == Some(c)
}

/// A row of `m` whose pivot is in column `c`.
pub open spec fn pivot_row(m: Table, c: int) -> int {
    choose|i: int| 0 <= i < m.len() && #[trigger] pivot(m[i]) == Some(c)
}

/// The columns below `upto` that are no pivot column of `m`, in increasing
/// order.
pub open spec fn free_columns(m: Table, upto: int) -> Seq<int>
    decreases upto,
{
    if upto <= 0 {
        Seq::empty()
    } else if is_pivot_column(m, upto - 1) {
        free_columns(m, upto - 1)
    } else {
        free_columns(m, upto - 1).push(upto - 1)
    }
}

/// The kernel vector that belongs to the free column `f` of a matrix `m` in
/// reduced row-echelon form: 1 at `f`, 0 at every other free column, and at
/// the pivot column of a row the entry of that row in column `f`.
pub open spec fn kernel_vector(m: Table, f: int) -> Seq<u8> {
    Seq::new(
        num_cols(m),
        |c: int|
            if c == f {
                1u8
            } else if is_pivot_column(m, c) {
                m[pivot_row(m, c)][f]
            } else {
                0u8
            },
    )
}

/// The kernel basis of a matrix `m` in reduced row-echelon form: one vector
/// for each free column, in increasing order of the columns.
pub open spec fn kernel_basis(m: Table) -> Seq<Seq<u8>> {
    free_columns(m, num_cols(m) as int).map_values(|f: int| kernel_vector(m, f))
}

/// The kernel basis of `m`, read off its reduced row-echelon form.
pub open spec fn kernel_of(m: Table) -> Seq<Seq<u8>> {
    kernel_basis(rref(m))
}

/// The rows of `m` that have a pivot, in the order of the rows.
pub open spec fn pivot_rows(m: Table) -> Seq<Seq<u8>> {
    m.filter(|row: Seq<u8>| pivot(row) is Some)
}

/// The image basis of `m`: the rows of its reduced row-echelon form that
/// are not zero.
pub open spec fn image_of(m: Table) -> Seq<Seq<u8>> {
    pivot_rows(rref(m))
}

/// The solution of `m * x = b` for a matrix `m` of full column rank: `b`
/// after the row operations that reduce `m`, without its trailing
/// `m.len() - rank_of(m)` entries.
pub open spec fn solve_of(m: Table, b: Seq<u8>) -> Seq<u8> {
    replay(history(m), b).take(b.len() - (m.len() - rank_of(m)))
}

/// The product of a row and a vector over the integers; its parity is their
/// product in GF(2).
pub open spec fn dot(row: Seq<u8>, v: Seq<u8>) -> int
    decreases row.len(),
{
    if row.len() == 0 {
        0
    } else {
        dot(row.drop_last(), v) + row.last() * v[row.len() - 1]
    }
}

/// The product `m * v` in GF(2).
pub open spec fn times(m: Table, v: Seq<u8>) -> Seq<u8> {
    Seq::new(m.len(), |i: int| (dot(m[i], v) % 2) as u8)
}

/// The vector of `n` entries that is 1 at `c` and 0 elsewhere.
pub open spec fn unit(n: nat, c: int) -> Seq<u8> {
    Seq::new(
        n,
        |j: int|
            if j == c {
                1u8
            } else {
                0u8
            },
    )
}

/// Whether `m * v = 0` in GF(2).
pub open spec fn annihilates(m: Table, v: Seq<u8>) -> bool {
    forall|i: int| 0 <= i < m.len() ==> dot(#[trigger] m[i], v) % 2 == 0
}

} // verus!
