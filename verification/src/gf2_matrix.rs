//! Matrices over GF(2) and the operations on them.

use std::collections::{HashMap, HashSet};
use vstd::prelude::*;
use vstd::std_specs::hash::spec_hash_map_iter;
use vstd::std_specs::iter::IteratorSpec;
use crate::image::{lemma_pivot_rows_empty, lemma_pivot_rows_push};
use crate::kernel::{
    lemma_back_substitution, lemma_free_columns, lemma_pivot_row_is, lemma_scan_free,
    lemma_scan_pivot, lemma_scan_start, maps_pivots, scanned, xor_sum_above,
};
use crate::laws::{
    law_history_replays, law_image_size, law_kernel_annihilated, law_rank_nullity,
    law_solve_recovers,
};
use crate::matrix::{num_cols, rows_of, Matrix, MatrixTrait};
use crate::model::{
    add_bits, add_rows, annihilates, binary, binary_row, column, column_clear_but, count_pivots,
    echelon, eliminated, elimination_ops, find_row, free_columns, history, image_of,
    is_eliminated, is_gf2, is_pivot_column, is_rref, kernel_basis, kernel_of, kernel_vector,
    leads_before, ops_within, pivot, pivot_columns, pivot_row, pivot_rows, rank_of, rectangular,
    reduce_from, replay, rref, rref_row, solve_of, swap_ops, swapped, times, RowOp,
};
use crate::pivots::{lemma_pivot_cases, lemma_pivot_is, lemma_pivot_none};
use crate::rank::{lemma_count_pivots_bound, lemma_pivot_columns};
use crate::reduction::{
    lemma_echelon, lemma_find_row_is, lemma_reduce_rref, lemma_reduced_upto_start,
    lemma_rref_fixed,
};

verus! {

/// A matrix over GF(2): each entry is 0 or 1.
pub type GF2Matrix = Matrix<u8>;

/// Why a linear system was not solved.
#[derive(Clone, Copy, Debug, PartialEq, Eq, Structural)]
pub enum SolveError {
    /// The rows of a table differ in length, or the right-hand side does
    /// not have one entry for each row of the matrix.
    InvalidDimensions,
    /// An entry of the matrix is neither 0 nor 1.
    NonBinaryEntry,
    /// The rank of the matrix is less than the number of its columns.
    RankDeficient,
}

/// `<[T]>::swap` exchanges the elements at `a` and `b`, and panics where
/// either is out of bounds.
pub assume_specification<E>[ <[E]>::swap ](s: &mut [E], a: usize, b: usize)
    requires
        a < old(s)@.len(),
        b < old(s)@.len(),
    ensures
        final(s)@ == old(s)@.update(a as int, old(s)@[b as int]).update(b as int, old(s)@[a as int]),
;

impl MatrixTrait<u8> for GF2Matrix {
    /// The operations work on rectangular tables of bits.
    open spec fn well_formed(&self) -> bool {
        is_gf2(self@)
    }

    /// Whether the matrix is in reduced row-echelon form.
    fn is_reduced_echelon(&self) -> (b: bool)
        ensures
            b == is_rref(self@),
    {
        let nrows: usize = self.nrows();
        let mut old_piv: usize = 0;
        let mut found_zero_row: bool = false;
        let mut i: usize = 0;
        while i < nrows
            invariant
                i <= nrows,
                nrows == self@.len(),
                is_gf2(self@),
                forall|k: int| 0 <= k < i ==> #[trigger] rref_row(self@, k),
                found_zero_row ==> exists|k: int| 0 <= k < i && pivot(#[trigger] self@[k]) is None,
                !found_zero_row && i > 0 ==> pivot(self@[i - 1]) == Some(old_piv as int),
                i == 0 ==> old_piv == 0,
            decreases nrows - i,
        {
            let piv = GF2Matrix::get_pivot(&self.elements[i]);
            assert(self.elements@[i as int]@ == self@[i as int]);
            match piv {
                None => {
                    found_zero_row = true;
                },
                Some(piv) => {
                    proof {
                        lemma_pivot_cases(self@[i as int]);
                        assert(self@[i as int].len() == num_cols(self@));
                    }
                    if found_zero_row {
                        proof {
                            let k = choose|k: int| 0 <= k < i && pivot(#[trigger] self@[k]) is None;
                            assert(!leads_before(self@[k], piv as int));
                            assert(!rref_row(self@, i as int));
                        }
                        return false;
                    }
                    if piv < old_piv {
                        proof {
                            assert(!leads_before(self@[i - 1], piv as int));
                            assert(!rref_row(self@, i as int));
                        }
                        return false;
                    }
                    let mut j: usize = 0;
                    while j < nrows
                        invariant
                            j <= nrows,
                            i < nrows,
                            nrows == self@.len(),
                            is_gf2(self@),
                            piv < num_cols(self@),
                            pivot(self@[i as int]) == Some(piv as int),
                            forall|k: int| 0 <= k < j && k != i ==> (#[trigger] self@[k])[piv as int] == 0,
                        decreases nrows - j,
                    {
                        assert(self.elements@[j as int]@ == self@[j as int]);
                        assert(self@[j as int].len() == num_cols(self@));
                        if j != i && self.elements[j][piv] != 0 {
                            proof {
                                assert(!column_clear_but(self@, piv as int, i as int));
                                assert(!rref_row(self@, i as int));
                            }
                            return false;
                        }
                        j += 1;
                    }
                    proof {
                        assert(column_clear_but(self@, piv as int, i as int));
                        assert forall|k: int| 0 <= k < i implies leads_before(
                            #[trigger] self@[k],
                            piv as int,
                        ) by {
                            assert(rref_row(self@, i - 1));
                            lemma_pivot_cases(self@[i - 1]);
                            if k < i - 1 {
                                assert(leads_before(self@[k], old_piv as int));
                            }
                        }
                    }
                    old_piv = piv;
                },
            }
            i += 1;
        }
        true
    }

    /// The position of the first 1 in `row`, if it has one.
    fn get_pivot(row: &Vec<u8>) -> (p: Option<usize>)
        ensures
            match p {
                Some(i) => pivot(row@) == Some(i as int),
                None => pivot(row@) is None,
            },
    {
        let mut i: usize = 0;
        while i < row.len()
            invariant
                i <= row.len(),
                forall|j: int| 0 <= j < i ==> #[trigger] row@[j] != 1,
            decreases row.len() - i,
        {
            if row[i] == 1 {
                proof {
                    lemma_pivot_is(row@, i as int);
                }
                return Some(i);
            }
            i += 1;
        }
        proof {
            lemma_pivot_none(row@);
        }
        None
    }

    /// The reduced row-echelon form of the matrix, with the record of the
    /// row operations that lead to it.
    fn echelon_form(&self) -> (res: (Self, Vec<(usize, usize)>))
        ensures
            (res.0@, res.1@) == echelon(self@),
            is_gf2(res.0@),
            res.0@.len() == self@.len(),
            num_cols(res.0@) == num_cols(self@),
            is_rref(res.0@),
            ops_within(res.1@, self@.len()),
            is_rref(self@) ==> res.0@ == self@ && res.1@.len() == 0,
            forall|c: int|
                0 <= c < num_cols(self@) ==> replay(res.1@, #[trigger] column(self@, c)) == column(
                    res.0@,
                    c,
                ),
    {
        let mut m_copy = self.clone();
        let rows: usize = m_copy.nrows();
        let cols: usize = m_copy.ncols();
        let mut operations: Vec<(usize, usize)> = Vec::new();
        let mut lead: usize = 0;
        let mut r: usize = 0;
        proof {
            lemma_reduced_upto_start(self@);
            lemma_reduce_rref(self@, 0, 0);
            if is_rref(self@) {
                lemma_rref_fixed(self@);
            }
            assert forall|c: int| 0 <= c < num_cols(self@) implies replay(
                history(self@),
                #[trigger] column(self@, c),
            ) == column(rref(self@), c) by {
                law_history_replays(self@, c);
            }
        }
        while r < rows && lead < cols
            invariant
                is_gf2(m_copy@),
                m_copy@.len() == rows,
                num_cols(m_copy@) == cols,
                r <= rows,
                lead <= cols,
                echelon(self@) == (
                    reduce_from(m_copy@, r as int, lead as int).0,
                    operations@ + reduce_from(m_copy@, r as int, lead as int).1,
                ),
            decreases rows - r, cols - lead,
        {
            let ghost before = m_copy@;
            let ghost recorded = operations@;
            let i: usize = m_copy.find_row(lead, r);
            if i == rows {
                lead += 1;
            } else {
                m_copy.swap_rows(r, i);
                if r != i {
                    operations.push((r, i));
                    operations.push((i, r));
                    operations.push((r, i));
                }
                assert(operations@ =~= recorded + swap_ops(r as int, i as int));
                let ghost exchanged = m_copy@;
                assert(exchanged[r as int] == before[i as int]);
                m_copy.eliminate(r, lead, &mut operations);
                proof {
                    let rest = reduce_from(m_copy@, r + 1, lead + 1);
                    assert(operations@ + rest.1 =~= recorded + (swap_ops(r as int, i as int)
                        + elimination_ops(exchanged, r as int, lead as int, rows as int)
                        + rest.1));
                }
                lead += 1;
                r += 1;
            }
        }
        proof {
            assert(operations@ + Seq::<RowOp>::empty() =~= operations@);
        }
        (m_copy, operations)
    }

    /// The rank of the matrix: the number of pivot columns of its reduced
    /// row-echelon form.
    fn rank(&self) -> (r: usize)
        ensures
            r == rank_of(self@),
            r <= self@.len(),
            r <= num_cols(self@),
    {
        proof {
            lemma_echelon(self@);
            lemma_count_pivots_bound(rref(self@));
        }
        if self.is_reduced_echelon() {
            proof {
                lemma_rref_fixed(self@);
            }
            return self.rank_echelon_form();
        } else {
            let (ech_form, _) = self.echelon_form();
            return ech_form.rank_echelon_form();
        }
    }

    /// A basis of the kernel of the matrix, read off its reduced
    /// row-echelon form: one vector for each free column, in increasing
    /// order of the columns.
    fn kernel(&self) -> (basis: Vec<Vec<u8>>)
        ensures
            rows_of(basis@) == kernel_of(self@),
            basis@.len() + rank_of(self@) == num_cols(self@),
            forall|k: int|
                0 <= k < basis@.len() ==> annihilates(self@, #[trigger] rows_of(basis@)[k]),
    {
        proof {
            law_rank_nullity(self@);
            assert forall|k: int| 0 <= k < kernel_of(self@).len() implies annihilates(
                self@,
                #[trigger] kernel_of(self@)[k],
            ) by {
                law_kernel_annihilated(self@, k);
            }
        }
        if self.is_reduced_echelon() {
            proof {
                lemma_rref_fixed(self@);
            }
            return self.kernel_echelon_form();
        } else {
            let (ech_form, _) = self.echelon_form();
            return ech_form.kernel_echelon_form();
        }
    }

    /// A basis of the image of the matrix: the rows of its reduced
    /// row-echelon form that are not zero, in the order of the rows.
    fn image(&self) -> (basis: Vec<Vec<u8>>)
        ensures
            rows_of(basis@) == image_of(self@),
            basis@.len() == rank_of(self@),
    {
        proof {
            law_image_size(self@);
        }
        let mat = if !self.is_reduced_echelon() {
            let (m, _) = self.echelon_form();
            m
        } else {
            proof {
                lemma_rref_fixed(self@);
            }
            self.clone()
        };
        assert(mat@ == rref(self@));
        let mut image_base: Vec<Vec<u8>> = Vec::new();
        let rows: usize = mat.nrows();
        let mut i: usize = 0;
        assert(mat@.take(0) =~= Seq::<Seq<u8>>::empty());
        assert(rows_of(image_base@) =~= Seq::<Seq<u8>>::empty());
        proof {
            lemma_pivot_rows_empty();
        }
        while i < rows
            invariant
                i <= rows,
                rows == mat@.len(),
                rows_of(image_base@) == pivot_rows(mat@.take(i as int)),
            decreases rows - i,
        {
            let row = mat.elements[i].clone();
            assert(row@ == mat@[i as int]);
            let piv = GF2Matrix::get_pivot(&row);
            let ghost before = image_base@;
            proof {
                lemma_pivot_rows_push(mat@.take(i as int), mat@[i as int]);
                assert(mat@.take(i + 1) =~= mat@.take(i as int).push(mat@[i as int]));
            }
            if !piv.is_none() {
                image_base.push(row);
                assert(rows_of(image_base@) =~= rows_of(before).push(row@));
            }
            i += 1;
        }
        assert(mat@.take(rows as int) =~= mat@);
        image_base
    }
}

impl GF2Matrix {
    /// Whether all rows have the same length.
    pub fn is_rectangular(&self) -> (ok: bool)
        ensures
            ok == rectangular(self@),
    {
        let n: usize = self.elements.len();
        if n == 0 {
            return true;
        }
        let cols: usize = self.elements[0].len();
        let mut i: usize = 0;
        while i < n
            invariant
                i <= n,
                n == self@.len(),
                n > 0,
                cols == self@[0].len(),
                forall|k: int| 0 <= k < i ==> (#[trigger] self@[k]).len() == cols,
            decreases n - i,
        {
            assert(self.elements@[i as int]@ == self@[i as int]);
            if self.elements[i].len() != cols {
                return false;
            }
            i += 1;
        }
        true
    }

    /// Whether every entry is 0 or 1.
    pub fn is_binary(&self) -> (ok: bool)
        ensures
            ok == binary(self@),
    {
        let n: usize = self.elements.len();
        let mut i: usize = 0;
        while i < n
            invariant
                i <= n,
                n == self@.len(),
                forall|k: int| 0 <= k < i ==> binary_row(#[trigger] self@[k]),
            decreases n - i,
        {
            let row = &self.elements[i];
            assert(row@ == self@[i as int]);
            let mut j: usize = 0;
            while j < row.len()
                invariant
                    j <= row.len(),
                    i < self@.len(),
                    row@ == self@[i as int],
                    forall|c: int| 0 <= c < j ==> #[trigger] row@[c] <= 1,
                decreases row.len() - j,
            {
                if row[j] > 1 {
                    assert(self@[i as int][j as int] > 1);
                    return false;
                }
                j += 1;
            }
            i += 1;
        }
        true
    }

    /// Whether the table is a matrix over GF(2): all rows of one length,
    /// all entries 0 or 1.
    pub fn is_valid(&self) -> (ok: bool)
        ensures
            ok == is_gf2(self@),
    {
        self.is_rectangular() && self.is_binary()
    }

    /// The number of distinct pivot columns of the matrix.
    fn rank_echelon_form(&self) -> (count: usize)
        requires
            rectangular(self@),
        ensures
            count == count_pivots(self@),
    {
        broadcast use vstd::std_specs::hash::group_hash_axioms;

        let mut count: usize = 0;
        let mut pivot_cols: HashSet<usize> = HashSet::new();
        let rows: usize = self.nrows();
        let mut i: usize = 0;
        while i < rows
            invariant
                i <= rows,
                rows == self@.len(),
                rectangular(self@),
                pivot_cols@.finite(),
                forall|c: usize|
                    pivot_cols@.contains(c) <==> pivot_columns(self@, i as int).contains(c as int),
                pivot_cols@.len() == pivot_columns(self@, i as int).len(),
                count == pivot_cols@.len(),
                count <= i,
            decreases rows - i,
        {
            let p = GF2Matrix::get_pivot(&self.elements[i]);
            assert(self.elements@[i as int]@ == self@[i as int]);
            proof {
                lemma_pivot_columns(self@, i as int);
                lemma_pivot_columns(self@, i + 1);
            }
            if let Some(col) = p {
                if pivot_cols.insert(col) {
                    count += 1;
                }
            }
            i += 1;
        }
        count
    }

    /// The kernel basis of a matrix in reduced row-echelon form.
    fn kernel_echelon_form(&self) -> (kernel_base: Vec<Vec<u8>>)
        requires
            is_gf2(self@),
            is_rref(self@),
        ensures
            rows_of(kernel_base@) == kernel_basis(self@),
    {
        broadcast use vstd::std_specs::hash::group_hash_axioms;

        let rows: usize = self.nrows();
        let cols: usize = self.ncols();
        let mut pivots: HashMap<usize, usize> = HashMap::new();
        let mut kernel_base: Vec<Vec<u8>> = Vec::new();
        let mut free_cols: Vec<usize> = Vec::new();
        let mut row_index: usize = 0;
        let mut j: usize = 0;
        proof {
            lemma_scan_start(self@);
        }
        while j < cols
            invariant
                j <= cols,
                row_index <= rows,
                rows == self@.len(),
                cols == num_cols(self@),
                is_gf2(self@),
                is_rref(self@),
                scanned(self@, row_index as int, j as int),
                forall|c: usize| #[trigger]
                    pivots@.contains_key(c) <==> c < j && is_pivot_column(self@, c as int),
                forall|c: usize| #[trigger]
                    pivots@.contains_key(c) ==> pivots@[c] < rows && pivot(
                        self@[pivots@[c] as int],
                    ) == Some(c as int),
                free_cols@.len() == free_columns(self@, j as int).len(),
                forall|k: int|
                    0 <= k < free_cols@.len() ==> #[trigger] free_cols@[k] as int == free_columns(
                        self@,
                        j as int,
                    )[k],
            decreases cols - j,
        {
            if row_index < rows {
                assert(self.elements@[row_index as int]@ == self@[row_index as int]);
                assert(self@[row_index as int].len() == num_cols(self@));
            }
            if row_index < rows && self.elements[row_index][j] == 1 {
                proof {
                    lemma_scan_pivot(self@, row_index as int, j as int);
                }
                pivots.insert(j, row_index);
                row_index += 1;
            } else {
                proof {
                    lemma_scan_free(self@, row_index as int, j as int);
                }
                free_cols.push(j);
            }
            j += 1;
        }
        proof {
            assert forall|c: usize| is_pivot_column(self@, c as int) implies c < cols by {
                let i = pivot_row(self@, c as int);
                lemma_pivot_cases(self@[i]);
                assert(self@[i].len() == num_cols(self@));
            }
            assert(maps_pivots(pivots@, self@));
            lemma_free_columns(self@, cols as int);
        }
        let count: usize = free_cols.len();
        let mut t: usize = 0;
        while t < count
            invariant
                t <= count,
                count == free_cols@.len(),
                cols == num_cols(self@),
                is_gf2(self@),
                is_rref(self@),
                maps_pivots(pivots@, self@),
                free_cols@.len() == free_columns(self@, cols as int).len(),
                forall|k: int|
                    0 <= k < free_cols@.len() ==> #[trigger] free_cols@[k] as int == free_columns(
                        self@,
                        cols as int,
                    )[k],
                forall|k: int|
                    0 <= k < free_columns(self@, cols as int).len() ==> 0 <= #[trigger] free_columns(
                        self@,
                        cols as int,
                    )[k] < cols && !is_pivot_column(self@, free_columns(self@, cols as int)[k]),
                kernel_base@.len() == t,
                forall|k: int|
                    0 <= k < t ==> #[trigger] rows_of(kernel_base@)[k] == kernel_vector(
                        self@,
                        free_columns(self@, cols as int)[k],
                    ),
            decreases count - t,
        {
            let free_col: usize = free_cols[t];
            assert(free_col as int == free_columns(self@, cols as int)[t as int]);
            let vector = self.kernel_vector_for(&pivots, free_col);
            let ghost before = kernel_base@;
            kernel_base.push(vector);
            assert(rows_of(kernel_base@) =~= rows_of(before).push(vector@));
            t += 1;
        }
        assert(rows_of(kernel_base@) =~= kernel_basis(self@));
        kernel_base
    }

    /// The kernel vector that belongs to the free column `free_col`: 1 at
    /// `free_col`, and at each pivot column what back-substitution into the
    /// row of that pivot gives.
    fn kernel_vector_for(&self, pivots: &HashMap<usize, usize>, free_col: usize) -> (vector:
        Vec<u8>)
        requires
            is_gf2(self@),
            is_rref(self@),
            maps_pivots(pivots@, self@),
            free_col < num_cols(self@),
            !is_pivot_column(self@, free_col as int),
        ensures
            vector@ == kernel_vector(self@, free_col as int),
    {
        broadcast use vstd::std_specs::hash::group_hash_axioms;

        let cols: usize = self.ncols();
        let mut vector: Vec<u8> = vec![0; cols];
        vector[free_col] = 1;
        let ghost entries = spec_hash_map_iter(pivots).remaining();
        let ghost mut done: int = 0;
        for entry in it: pivots.iter()
            invariant
                it.seq() == entries,
                done == it.index(),
                cols == num_cols(self@),
                is_gf2(self@),
                is_rref(self@),
                maps_pivots(pivots@, self@),
                free_col < cols,
                !is_pivot_column(self@, free_col as int),
                vector@.len() == cols,
                vector@[free_col as int] == 1,
                forall|c: int|
                    0 <= c < cols && c != free_col && !is_pivot_column(self@, c)
                        ==> #[trigger] vector@[c] == 0,
                forall|i: int|
                    0 <= i < it.index() ==> vector@[*(#[trigger] it.seq()[i]).0 as int]
                        == self@[*it.seq()[i].1 as int][free_col as int],
        {
            let (p_index, p_row) = entry;
            assert(pivots@.contains_key(*p_index) && pivots@[*p_index] == *p_row);
            assert(is_pivot_column(self@, *p_index as int));
            proof {
                lemma_pivot_cases(self@[*p_row as int]);
                assert(self@[*p_row as int].len() == num_cols(self@));
                lemma_back_substitution(
                    self@,
                    *p_row as int,
                    *p_index as int,
                    free_col as int,
                    vector@,
                    0,
                );
            }
            let sum: u8 = self.back_substitute(*p_row, *p_index, &vector);
            let ghost before = vector@;
            vector[*p_index] = sum;
            assert forall|i: int| 0 <= i < it.index() + 1 implies vector@[*(
            #[trigger] it.seq()[i]).0 as int] == self@[*it.seq()[i].1 as int][free_col as int] by {
                let key = *it.seq()[i].0;
                assert(pivots@.contains_key(key) && pivots@[key] == *it.seq()[i].1);
                if key != *p_index {
                    assert(vector@[key as int] == before[key as int]);
                }
            }
            proof {
                done = done + 1;
            }
        }
        proof {
            let seq = entries;
            assert(done == seq.len());
            assert forall|c: int| 0 <= c < cols implies #[trigger] vector@[c]
                == kernel_vector(self@, free_col as int)[c] by {
                if c != free_col && is_pivot_column(self@, c) {
                    let key = c as usize;
                    assert(pivots@.contains_key(key));
                    let row = pivots@[key];
                    lemma_pivot_row_is(self@, row as int, c);
                    assert(seq.contains((&key, &row)));
                    let i = choose|i: int| 0 <= i < seq.len() && seq[i] == (&key, &row);
                    assert(*seq[i].0 == key);
                }
            }
            assert(vector@ =~= kernel_vector(self@, free_col as int));
        }
        vector
    }

    /// The sum in GF(2) of the products of the entries of row `p_row` with
    /// the entries of `v`, over all columns but `p_index`.
    fn back_substitute(&self, p_row: usize, p_index: usize, v: &Vec<u8>) -> (sum: u8)
        requires
            is_gf2(self@),
            p_row < self@.len(),
            v@.len() == num_cols(self@),
        ensures
            sum == xor_sum_above(self@[p_row as int], v@, p_index as int, 0),
    {
        let cols: usize = self.ncols();
        let row = &self.elements[p_row];
        assert(row@ == self@[p_row as int]);
        assert(row@.len() == num_cols(self@));
        assert(binary_row(row@));
        let mut sum: u8 = 0;
        let mut col: usize = cols;
        while col > 0
            invariant
                col <= cols,
                cols == row@.len(),
                cols == v@.len(),
                binary_row(row@),
                sum == xor_sum_above(row@, v@, p_index as int, col as int),
            decreases col,
        {
            col -= 1;
            if col != p_index {
                let a: u8 = row[col];
                let b: u8 = v[col];
                assert(a * b <= 255) by (nonlinear_arith)
                    requires
                        a <= 1,
                        b <= 255,
                ;
                sum = sum ^ (a * b);
            }
        }
        sum
    }

    /// `v` after the row operations of `operations`, made in their order:
    /// each `(target, source)` adds entry `source` into entry `target`.
    pub fn apply_operations(operations: &Vec<(usize, usize)>, v: &Vec<u8>) -> (result: Vec<u8>)
        requires
            ops_within(operations@, v@.len()),
        ensures
            result@ == replay(operations@, v@),
            result@.len() == v@.len(),
    {
        let mut result = v.clone();
        assert(result@ == v@);
        let mut k: usize = 0;
        assert(operations@.take(0) =~= Seq::<RowOp>::empty());
        while k < operations.len()
            invariant
                k <= operations.len(),
                ops_within(operations@, v@.len()),
                result@.len() == v@.len(),
                result@ == replay(operations@.take(k as int), v@),
            decreases operations.len() - k,
        {
            let (op1, op2) = operations[k];
            let sum: u8 = result[op1] ^ result[op2];
            result[op1] = sum;
            proof {
                let done = operations@.take(k + 1);
                assert(done.drop_last() =~= operations@.take(k as int));
                assert(done.last() == operations@[k as int]);
            }
            k += 1;
        }
        assert(operations@.take(operations.len() as int) =~= operations@);
        result
    }

    /// Column `idx` of the matrix, from the first row to the last.
    pub fn column(&self, idx: usize) -> (col: Vec<u8>)
        requires
            rectangular(self@),
            idx < num_cols(self@),
        ensures
            col@ == column(self@, idx as int),
    {
        let mut col: Vec<u8> = Vec::new();
        let rows: usize = self.elements.len();
        let mut i: usize = 0;
        while i < rows
            invariant
                i <= rows,
                rows == self@.len(),
                rectangular(self@),
                idx < num_cols(self@),
                col@.len() == i,
                forall|k: int| 0 <= k < i ==> #[trigger] col@[k] == self@[k][idx as int],
            decreases rows - i,
        {
            assert(self.elements@[i as int]@ == self@[i as int]);
            assert(self@[i as int].len() == num_cols(self@));
            col.push(self.elements[i][idx]);
            i += 1;
        }
        assert(col@ =~= column(self@, idx as int));
        col
    }

    /// The solutions of `self * X = y`, column by column of `y`: row `i` of
    /// the result solves the system whose right-hand side is column `i` of
    /// `y`.
    pub fn solve_matrix_system(&self, y: &GF2Matrix) -> (x: GF2Matrix)
        requires
            is_gf2(self@),
            rank_of(self@) == num_cols(self@),
            rectangular(y@),
            y@.len() == self@.len(),
        ensures
            x@.len() == num_cols(y@),
            forall|i: int|
                0 <= i < num_cols(y@) ==> #[trigger] x@[i] == solve_of(self@, column(y@, i)),
    {
        let mut solution: Vec<Vec<u8>> = Vec::new();
        let (ech, operations) = self.echelon_form();
        proof {
            lemma_rref_fixed(ech@);
        }
        let to_remove: usize = ech.nrows() - ech.rank();
        let cols: usize = y.ncols();
        let mut i: usize = 0;
        while i < cols
            invariant
                i <= cols,
                cols == num_cols(y@),
                rectangular(y@),
                y@.len() == self@.len(),
                operations@ == history(self@),
                ops_within(operations@, self@.len()),
                to_remove == self@.len() - rank_of(self@),
                to_remove <= self@.len(),
                solution@.len() == i,
                forall|k: int|
                    0 <= k < i ==> #[trigger] rows_of(solution@)[k] == solve_of(
                        self@,
                        column(y@, k),
                    ),
            decreases cols - i,
        {
            let b = y.column(i);
            let mut solved_b = Self::apply_operations(&operations, &b);
            solved_b.truncate(solved_b.len() - to_remove);
            assert(solved_b@ =~= solve_of(self@, column(y@, i as int)));
            let ghost before = solution@;
            solution.push(solved_b);
            assert(rows_of(solution@) =~= rows_of(before).push(solved_b@));
            i += 1;
        }
        GF2Matrix::new(solution)
    }

    /// The solution of `self * x = b`: `b` after the row operations that
    /// reduce the matrix, cut to the number of its columns. Where the system
    /// has a solution, this is it.
    pub fn solve(&self, b: &Vec<u8>) -> (x: Vec<u8>)
        requires
            is_gf2(self@),
            rank_of(self@) == num_cols(self@),
            b@.len() == self@.len(),
        ensures
            x@ == solve_of(self@, b@),
            x@.len() == num_cols(self@),
            forall|y: Seq<u8>|
                binary_row(y) && y.len() == num_cols(self@) && #[trigger] times(self@, y) == b@
                    ==> x@ == y,
    {
        let (ech, operations) = self.echelon_form();
        proof {
            lemma_rref_fixed(ech@);
            assert forall|y: Seq<u8>|
                binary_row(y) && y.len() == num_cols(self@) && #[trigger] times(self@, y)
                    == b@ implies solve_of(self@, b@) == y by {
                law_solve_recovers(self@, y);
            }
        }
        let to_remove: usize = ech.nrows() - ech.rank();
        let mut solved_b = Self::apply_operations(&operations, b);
        solved_b.truncate(solved_b.len() - to_remove);
        assert(solved_b@ =~= solve_of(self@, b@));
        solved_b
    }

    /// The solution of `self * x = b`, or the reason why it was not
    /// computed: the first that holds of a table that is not rectangular,
    /// one with an entry other than 0 and 1, a matrix whose rank is less
    /// than the number of its columns, and a `b` that does not have one
    /// entry for each row.
    pub fn try_solve(&self, b: &Vec<u8>) -> (res: Result<Vec<u8>, SolveError>)
        ensures
            match res {
                Ok(x) => {
                    &&& is_gf2(self@)
                    &&& rank_of(self@) == num_cols(self@)
                    &&& b@.len() == self@.len()
                    &&& x@ == solve_of(self@, b@)
                },
                Err(SolveError::InvalidDimensions) => {
                    ||| !rectangular(self@)
                    ||| is_gf2(self@) && rank_of(self@) == num_cols(self@) && b@.len()
                        != self@.len()
                },
                Err(SolveError::NonBinaryEntry) => rectangular(self@) && !binary(self@),
                Err(SolveError::RankDeficient) => is_gf2(self@) && rank_of(self@) < num_cols(
                    self@,
                ),
            },
    {
        if !self.is_rectangular() {
            return Err(SolveError::InvalidDimensions);
        }
        if !self.is_binary() {
            return Err(SolveError::NonBinaryEntry);
        }
        if self.rank() < self.ncols() {
            return Err(SolveError::RankDeficient);
        }
        if b.len() != self.nrows() {
            return Err(SolveError::InvalidDimensions);
        }
        Ok(self.solve(b))
    }

    /// The solutions of `self * X = y`, as `solve_matrix_system` gives
    /// them, or the reason why they were not computed: the first that holds
    /// of a table `self` that is not rectangular, one with an entry other
    /// than 0 and 1, a matrix whose rank is less than the number of its
    /// columns, and a `y` that is not rectangular or does not have as many
    /// rows as `self`.
    pub fn try_solve_matrix_system(&self, y: &GF2Matrix) -> (res: Result<GF2Matrix, SolveError>)
        ensures
            match res {
                Ok(x) => {
                    &&& is_gf2(self@)
                    &&& rank_of(self@) == num_cols(self@)
                    &&& rectangular(y@)
                    &&& y@.len() == self@.len()
                    &&& x@.len() == num_cols(y@)
                    &&& forall|i: int|
                        0 <= i < num_cols(y@) ==> #[trigger] x@[i] == solve_of(
                            self@,
                            column(y@, i),
                        )
                },
                Err(SolveError::InvalidDimensions) => {
                    ||| !rectangular(self@)
                    ||| is_gf2(self@) && rank_of(self@) == num_cols(self@) && !(rectangular(y@)
                        && y@.len() == self@.len())
                },
                Err(SolveError::NonBinaryEntry) => rectangular(self@) && !binary(self@),
                Err(SolveError::RankDeficient) => is_gf2(self@) && rank_of(self@) < num_cols(
                    self@,
                ),
            },
    {
        if !self.is_rectangular() {
            return Err(SolveError::InvalidDimensions);
        }
        if !self.is_binary() {
            return Err(SolveError::NonBinaryEntry);
        }
        if self.rank() < self.ncols() {
            return Err(SolveError::RankDeficient);
        }
        if !y.is_rectangular() || y.nrows() != self.nrows() {
            return Err(SolveError::InvalidDimensions);
        }
        Ok(self.solve_matrix_system(y))
    }

    /// The first row at or below `from` whose entry in column `lead` is not
    /// zero; the number of rows if there is none.
    fn find_row(&self, lead: usize, from: usize) -> (i: usize)
        requires
            rectangular(self@),
            lead < num_cols(self@),
            from <= self@.len(),
        ensures
            i == find_row(self@, lead as int, from as int),
            from <= i <= self@.len(),
            i < self@.len() ==> self@[i as int][lead as int] != 0,
    {
        let rows: usize = self.elements.len();
        let mut i: usize = from;
        while i < rows
            invariant
                from <= i <= rows,
                rows == self@.len(),
                rectangular(self@),
                lead < num_cols(self@),
                forall|k: int| from <= k < i ==> (#[trigger] self@[k])[lead as int] == 0,
            decreases rows - i,
        {
            assert(self.elements@[i as int]@ == self@[i as int]);
            assert(self@[i as int].len() == num_cols(self@));
            if self.elements[i][lead] != 0 {
                proof {
                    lemma_find_row_is(self@, lead as int, from as int, i as int);
                }
                return i;
            }
            i += 1;
        }
        proof {
            lemma_find_row_is(self@, lead as int, from as int, i as int);
        }
        i
    }

    /// Exchanges two rows.
    fn swap_rows(&mut self, row1: usize, row2: usize)
        requires
            row1 < old(self)@.len(),
            row2 < old(self)@.len(),
        ensures
            final(self)@ == swapped(old(self)@, row1 as int, row2 as int),
    {
        self.elements.swap(row1, row2);
        assert(self@ =~= swapped(old(self)@, row1 as int, row2 as int));
    }

    /// Adds row `source` into row `target`, entry by entry in GF(2).
    fn add_row(&mut self, target: usize, source: usize)
        requires
            is_gf2(old(self)@),
            target < old(self)@.len(),
            source < old(self)@.len(),
            target != source,
        ensures
            final(self)@ == old(self)@.update(
                target as int,
                add_rows(old(self)@[target as int], old(self)@[source as int]),
            ),
    {
        let cols: usize = self.elements[target].len();
        let ghost before = self@;
        assert(before[target as int].len() == num_cols(before));
        assert(before[source as int].len() == num_cols(before));
        assert(binary_row(before[target as int]));
        assert(binary_row(before[source as int]));
        let mut j: usize = 0;
        while j < cols
            invariant
                j <= cols,
                target < before.len(),
                source < before.len(),
                target != source,
                self@.len() == before.len(),
                cols == before[target as int].len(),
                cols == before[source as int].len(),
                binary_row(before[target as int]),
                binary_row(before[source as int]),
                self@[target as int].len() == cols,
                forall|k: int| 0 <= k < before.len() && k != target ==> self@[k] == before[k],
                forall|c: int|
                    0 <= c < j ==> #[trigger] self@[target as int][c] == add_bits(
                        before[target as int][c],
                        before[source as int][c],
                    ),
                forall|c: int|
                    j <= c < cols ==> #[trigger] self@[target as int][c] == before[target as int][c],
            decreases cols - j,
        {
            let ghost current = self@;
            assert(self.elements@[target as int]@ == self@[target as int]);
            assert(self.elements@[source as int]@ == self@[source as int]);
            let a: u8 = self.elements[target][j];
            let b: u8 = self.elements[source][j];
            assert(a == before[target as int][j as int]);
            assert(b == before[source as int][j as int]);
            let sum: u8 = (a + b) % 2;
            self.elements[target][j] = sum;
            assert(self@[target as int] =~= current[target as int].update(j as int, sum));
            assert forall|k: int| 0 <= k < before.len() && k != target implies self@[k]
                == before[k] by {
                assert(self@[k] == current[k]);
            }
            j += 1;
        }
        assert(self@[target as int] =~= add_rows(
            before[target as int],
            before[source as int],
        ));
        assert(self@ =~= before.update(
            target as int,
            add_rows(before[target as int], before[source as int]),
        ));
    }

    /// Adds row `r` into every other row that has a 1 in column `lead`, and
    /// records each addition.
    fn eliminate(&mut self, r: usize, lead: usize, operations: &mut Vec<(usize, usize)>)
        requires
            is_gf2(old(self)@),
            r < old(self)@.len(),
            lead < num_cols(old(self)@),
        ensures
            final(self)@ == eliminated(old(self)@, r as int, lead as int),
            final(operations)@ == old(operations)@ + elimination_ops(
                old(self)@,
                r as int,
                lead as int,
                old(self)@.len() as int,
            ),
    {
        let rows: usize = self.elements.len();
        let ghost before = self@;
        let ghost recorded = operations@;
        let mut i: usize = 0;
        while i < rows
            invariant
                i <= rows,
                rows == before.len(),
                r < rows,
                lead < num_cols(before),
                is_gf2(before),
                is_gf2(self@),
                self@.len() == rows,
                self@[r as int] == before[r as int],
                forall|k: int|
                    0 <= k < i ==> #[trigger] self@[k] == eliminated(before, r as int, lead as int)[k],
                forall|k: int| i <= k < rows ==> #[trigger] self@[k] == before[k],
                operations@ == recorded + elimination_ops(before, r as int, lead as int, i as int),
            decreases rows - i,
        {
            assert(self.elements@[i as int]@ == self@[i as int]);
            assert(before[i as int].len() == num_cols(before));
            assert(before[r as int].len() == num_cols(before));
            let ghost current = self@;
            if i != r && self.elements[i][lead] == 1 {
                assert(is_eliminated(before, r as int, lead as int, i as int));
                self.add_row(i, r);
                operations.push((i, r));
                proof {
                    assert(binary_row(before[i as int]));
                    assert(binary_row(before[r as int]));
                    let sum = add_rows(before[i as int], before[r as int]);
                    assert(sum.len() == num_cols(before));
                    assert(binary_row(sum));
                    assert forall|k: int| 0 <= k < self@.len() implies (#[trigger] self@[k]).len()
                        == num_cols(before) && binary_row(self@[k]) by {
                        if k != i {
                            assert(self@[k] == current[k]);
                            assert(binary_row(current[k]));
                        }
                    }
                    assert(self@[0].len() == num_cols(before));
                }
            } else {
                assert(!is_eliminated(before, r as int, lead as int, i as int));
            }
            assert(operations@ =~= recorded + elimination_ops(
                before,
                r as int,
                lead as int,
                i + 1,
            ));
            i += 1;
        }
        assert(self@ =~= eliminated(before, r as int, lead as int));
    }
}

} // verus!
