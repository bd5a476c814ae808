//! Matrices over GF(2) with each row packed into the bits of an integer.

use vstd::prelude::*;
use crate::gf2_matrix::GF2Matrix;
use vstd::arithmetic::div_mod::lemma_basic_div;
use vstd::arithmetic::power2::{lemma_pow2_strictly_increases, pow2};
use crate::matrix::{bit_of, Number};
use crate::model::{is_gf2, Table};

verus! {

/// The order in which the bits of a packed row become the columns of a
/// matrix.
#[derive(Clone, Copy, Debug)]
pub enum BitOrder {
    /// Bit 0 is column 0.
    LSB,
    /// Bit `n - 1` is column 0, for a row of `n` columns.
    MSB,
}

/// The bit of a packed row of `n` columns that column `c` holds.
pub open spec fn bit_index(n: nat, c: int, order: BitOrder) -> nat {
    match order {
        BitOrder::LSB => c as nat,
        BitOrder::MSB => (n - 1 - c) as nat,
    }
}

/// The `n` columns of the row that is packed into the bits of `value`.
pub open spec fn unpack_row(value: nat, n: nat, order: BitOrder) -> Seq<u8> {
    Seq::new(n, |c: int| bit_of(value, bit_index(n, c, order)) as u8)
}

/// The matrix of `n` columns whose rows are packed into `rows`.
pub open spec fn unpacked<T: Number>(rows: Seq<T>, n: nat, order: BitOrder) -> Table {
    Seq::new(rows.len(), |i: int| unpack_row(rows[i].value(), n, order))
}

/// The bits of a packed row from the width of its type on are 0, and so
/// are the columns that they unpack to.
pub proof fn law_bits_beyond_width<T: Number>(row: T, i: nat)
    requires
        i >= T::bits(),
    ensures
        bit_of(row.value(), i) == 0,
{
    row.lemma_value_fits();
    if i > T::bits() {
        lemma_pow2_strictly_increases(T::bits(), i);
    }
    lemma_basic_div(row.value() as int, pow2(i) as int);
}

/// A matrix over GF(2) in which each row is one integer, whose bits are the
/// entries of the row.
pub struct InterGF2Matrix<T: Number> {
    elements: Vec<T>,
    n: usize,
}

impl<T: Number> View for InterGF2Matrix<T> {
    /// The packed rows, and the number of columns.
    type V = (Seq<T>, nat);

    closed spec fn view(&self) -> (Seq<T>, nat) {
        (self.elements@, self.n as nat)
    }
}

impl<T: Number> InterGF2Matrix<T> {
    /// The matrix of `n` columns whose rows are packed into `elements`.
    pub fn new(elements: Vec<T>, n: usize) -> (m: Self)
        ensures
            m@ == (elements@, n as nat),
    {
        Self { elements: elements, n: n }
    }

    /// The number of rows.
    pub fn nrows(&self) -> (rows: usize)
        ensures
            rows == self@.0.len(),
    {
        self.elements.len()
    }

    /// The number of columns.
    pub fn ncols(&self) -> (cols: usize)
        ensures
            cols == self@.1,
    {
        self.n
    }

    /// The packed row `row_index`.
    pub fn row(&self, row_index: usize) -> (row: T)
        requires
            row_index < self@.0.len(),
        ensures
            row == self@.0[row_index as int],
    {
        self.elements[row_index]
    }

    /// The matrix with one entry for each bit: column `c` of a row holds
    /// bit `c` of the packed row for `BitOrder::LSB`, and bit `n - 1 - c`
    /// for `BitOrder::MSB`. Bits beyond the width of `T` are 0.
    pub fn from_int_matrix_to_gf2_matrix(&self, bit_order: BitOrder) -> (m: GF2Matrix)
        ensures
            m@ == unpacked(self@.0, self@.1, bit_order),
            is_gf2(m@),
    {
        let mut matrix_elements: Vec<Vec<u8>> = Vec::new();
        let rows: usize = self.elements.len();
        let mut k: usize = 0;
        while k < rows
            invariant
                k <= rows,
                rows == self.elements@.len(),
                matrix_elements@.len() == k,
                forall|i: int|
                    0 <= i < k ==> (#[trigger] matrix_elements@[i])@ == unpack_row(
                        self.elements@[i].value(),
                        self.n as nat,
                        bit_order,
                    ),
            decreases rows - k,
        {
            let row: T = self.elements[k];
            let mut r: Vec<u8> = Vec::new();
            match bit_order {
                BitOrder::LSB => {
                    let mut i: usize = 0;
                    while i < self.n
                        invariant
                            i <= self.n,
                            bit_order is LSB,
                            r@.len() == i,
                            forall|c: int|
                                0 <= c < i ==> #[trigger] r@[c] == bit_of(row.value(), c as nat),
                        decreases self.n - i,
                    {
                        r.push(row.bit(i));
                        i += 1;
                    }
                },
                BitOrder::MSB => {
                    let mut i: usize = self.n;
                    while i > 0
                        invariant
                            i <= self.n,
                            bit_order is MSB,
                            r@.len() == self.n - i,
                            forall|c: int|
                                0 <= c < self.n - i ==> #[trigger] r@[c] == bit_of(
                                    row.value(),
                                    (self.n - 1 - c) as nat,
                                ),
                        decreases i,
                    {
                        i -= 1;
                        r.push(row.bit(i));
                    }
                },
            }
            assert(r@ =~= unpack_row(row.value(), self.n as nat, bit_order));
            matrix_elements.push(r);
            k += 1;
        }
        let m = GF2Matrix::new(matrix_elements);
        assert(m@ =~= unpacked(self@.0, self@.1, bit_order));
        assert(is_gf2(m@)) by {
            assert forall|i: int| 0 <= i < m@.len() implies (#[trigger] m@[i]).len() == self.n by {}
        }
        m
    }
}

} // verus!
