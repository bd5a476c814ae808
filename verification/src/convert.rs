//! Conversions between matrices with one entry for each bit and matrices
//! with packed rows.

use vstd::prelude::*;
use vstd::arithmetic::div_mod::{lemma_div_denominator, lemma_mod_breakdown};
use vstd::arithmetic::power2::{
    lemma2_to64, lemma_pow2_pos, lemma_pow2_strictly_increases, lemma_pow2_unfold, pow2,
};
use vstd::std_specs::convert::FromSpecImpl;
use crate::gf2_matrix::GF2Matrix;
use crate::int_gf2_matrix::{unpack_row, unpacked, BitOrder, InterGF2Matrix};
use crate::matrix::{bit_of, num_cols, Matrix, Number};
use crate::model::{binary_row, is_gf2, Table};

verus! {

/// The number whose binary digits are `bits`, the first of them the most
/// significant.
pub open spec fn msb_value(bits: Seq<u8>) -> nat
    decreases bits.len(),
{
    if bits.len() == 0 {
        0
    } else {
        2 * msb_value(bits.drop_last()) + bits.last() as nat
    }
}

/// A number of `n` binary digits is below `2^n`.
pub proof fn lemma_msb_value_bound(bits: Seq<u8>)
    requires
        binary_row(bits),
    ensures
        msb_value(bits) < pow2(bits.len()),
    decreases bits.len(),
{
    if bits.len() == 0 {
        lemma2_to64();
    } else {
        assert(binary_row(bits.drop_last())) by {
            assert forall|j: int| 0 <= j < bits.drop_last().len() implies #[trigger] bits.drop_last()[j]
                <= 1 by {
                assert(bits.drop_last()[j] == bits[j]);
            }
        }
        lemma_msb_value_bound(bits.drop_last());
        lemma_pow2_unfold(bits.len());
        assert(bits.last() == bits[bits.len() - 1]);
    }
}

/// Doubling a number and adding a bit moves each of its bits up by one.
proof fn lemma_bit_of_double(w: nat, b: nat, k: nat)
    requires
        b <= 1,
        k >= 1,
    ensures
        bit_of(2 * w + b, k) == bit_of(w, (k - 1) as nat),
        bit_of(2 * w + b, 0) == b,
{
    lemma2_to64();
    lemma_pow2_unfold(k);
    lemma_pow2_pos((k - 1) as nat);
    lemma_div_denominator((2 * w + b) as int, 2, pow2((k - 1) as nat) as int);
}

/// Unpacking the number whose binary digits are `bits`, the most
/// significant bit first, into as many columns gives `bits` back.
pub proof fn law_unpack_packed(bits: Seq<u8>)
    requires
        binary_row(bits),
    ensures
        unpack_row(msb_value(bits), bits.len(), BitOrder::MSB) == bits,
    decreases bits.len(),
{
    let n = bits.len();
    if n > 0 {
        let front = bits.drop_last();
        assert(binary_row(front)) by {
            assert forall|j: int| 0 <= j < front.len() implies #[trigger] front[j] <= 1 by {
                assert(front[j] == bits[j]);
            }
        }
        law_unpack_packed(front);
        let w = msb_value(front);
        let b = bits.last() as nat;
        assert(bits.last() == bits[n - 1]);
        assert forall|c: int| 0 <= c < n implies #[trigger] unpack_row(
            msb_value(bits),
            n,
            BitOrder::MSB,
        )[c] == bits[c] by {
            if c == n - 1 {
                lemma_bit_of_double(w, b, 1);
            } else {
                lemma_bit_of_double(w, b, (n - 1 - c) as nat);
                assert(unpack_row(w, front.len(), BitOrder::MSB)[c] == front[c]);
            }
        }
    }
    assert(unpack_row(msb_value(bits), n, BitOrder::MSB) =~= bits);
}

/// Packing the `n` columns into which a number unpacks, the most
/// significant bit first, gives the number back without its bits from `n`
/// on.
pub proof fn law_pack_unpacked(value: nat, n: nat)
    ensures
        msb_value(unpack_row(value, n, BitOrder::MSB)) == value % pow2(n),
    decreases n,
{
    lemma2_to64();
    if n > 0 {
        let row = unpack_row(value, n, BitOrder::MSB);
        let half = (value / 2) as nat;
        law_pack_unpacked(half, (n - 1) as nat);
        assert(value == 2 * half + value % 2);
        assert forall|c: int| 0 <= c < n - 1 implies #[trigger] row.drop_last()[c] == unpack_row(
            half,
            (n - 1) as nat,
            BitOrder::MSB,
        )[c] by {
            lemma_bit_of_double(half, value % 2, (n - 1 - c) as nat);
        }
        assert(row.drop_last() =~= unpack_row(half, (n - 1) as nat, BitOrder::MSB));
        lemma_bit_of_double(half, value % 2, 1);
        assert(row.last() == value % 2);
        lemma_pow2_unfold(n);
        lemma_pow2_pos((n - 1) as nat);
        lemma_mod_breakdown(value as int, 2, pow2((n - 1) as nat) as int);
    } else {
        assert(unpack_row(value, 0, BitOrder::MSB).len() == 0);
    }
}

/// `2^n` for an `n` up to the width of `usize` is at most one more than its
/// largest value.
proof fn lemma_pow2_fits_usize(n: nat)
    requires
        n <= usize::BITS,
    ensures
        pow2(n) <= usize::MAX + 1,
{
    lemma2_to64();
    if n < usize::BITS {
        lemma_pow2_strictly_increases(n, usize::BITS as nat);
    }
}

impl<T: Number> From<&InterGF2Matrix<T>> for GF2Matrix {
    /// The matrix with one entry for each bit, the most significant bit of
    /// a packed row first.
    fn from(int_matrix: &InterGF2Matrix<T>) -> (m: Self)
        ensures
            m@ == unpacked(int_matrix@.0, int_matrix@.1, BitOrder::MSB),
            is_gf2(m@),
    {
        int_matrix.from_int_matrix_to_gf2_matrix(BitOrder::MSB)
    }
}

/// What the conversion gives is stated over the views, in the `ensures` of
/// `from`: no spec function names a matrix together with its table.
impl<T: Number> FromSpecImpl<&InterGF2Matrix<T>> for GF2Matrix {
    open spec fn obeys_from_spec() -> bool {
        false
    }

    open spec fn from_spec(v: &InterGF2Matrix<T>) -> Self {
        arbitrary()
    }
}

impl<T: Number> From<InterGF2Matrix<T>> for GF2Matrix {
    /// The matrix with one entry for each bit, the most significant bit of
    /// a packed row first.
    fn from(int_matrix: InterGF2Matrix<T>) -> (m: Self)
        ensures
            m@ == unpacked(int_matrix@.0, int_matrix@.1, BitOrder::MSB),
            is_gf2(m@),
    {
        int_matrix.from_int_matrix_to_gf2_matrix(BitOrder::MSB)
    }
}

/// What the conversion gives is stated over the views, in the `ensures` of
/// `from`: no spec function names a matrix together with its table.
impl<T: Number> FromSpecImpl<InterGF2Matrix<T>> for GF2Matrix {
    open spec fn obeys_from_spec() -> bool {
        false
    }

    open spec fn from_spec(v: InterGF2Matrix<T>) -> Self {
        arbitrary()
    }
}

impl<T: Number> Matrix<T> {
    /// The packed row whose bits are the entries of `v`, the first entry
    /// the most significant bit.
    pub fn from_vec_to_int_msb(v: &[u8]) -> (packed: T)
        requires
            binary_row(v@),
            v@.len() <= T::bits(),
            v@.len() <= usize::BITS,
        ensures
            packed.value() == msb_value(v@),
    {
        let mut x: usize = 0;
        let n: usize = v.len();
        let mut i: usize = 0;
        assert(v@.take(0) =~= Seq::<u8>::empty());
        proof {
            lemma_pow2_fits_usize(n as nat);
        }
        while i < n
            invariant
                i <= n,
                n == v@.len(),
                binary_row(v@),
                pow2(n as nat) <= usize::MAX + 1,
                x == msb_value(v@.take(i as int)),
            decreases n - i,
        {
            let bit: u8 = v[i];
            proof {
                let next = v@.take(i + 1);
                assert(next.drop_last() =~= v@.take(i as int));
                assert(next.last() == v@[i as int]);
                assert(binary_row(next));
                lemma_msb_value_bound(next);
                if i + 1 < n {
                    lemma_pow2_strictly_increases((i + 1) as nat, n as nat);
                }
            }
            x = 2 * x + (bit as usize);
            i += 1;
        }
        proof {
            assert(v@.take(n as int) =~= v@);
            lemma_msb_value_bound(v@);
            if n < T::bits() {
                lemma_pow2_strictly_increases(n as nat, T::bits());
            }
        }
        T::from_usize(x)
    }
}

/// The packed rows of the matrix `m`, the first entry of each row the most
/// significant bit.
pub open spec fn packed_values(m: Table) -> Seq<nat> {
    Seq::new(m.len(), |i: int| msb_value(m[i]))
}

impl<T: Number> InterGF2Matrix<T> {
    /// The matrix with packed rows that holds `matrix`: the first entry of
    /// each row becomes the most significant of the bits of the packed row.
    pub fn from_gf2_matrix(matrix: &GF2Matrix) -> (packed: Self)
        requires
            is_gf2(matrix@),
            num_cols(matrix@) <= T::bits(),
            num_cols(matrix@) <= usize::BITS,
        ensures
            packed@.1 == num_cols(matrix@),
            packed@.0.map_values(|row: T| row.value()) == packed_values(matrix@),
    {
        let rows: usize = matrix.elements.len();
        let cols: usize = if rows == 0 {
            0
        } else {
            matrix.elements[0].len()
        };
        let mut ve: Vec<T> = Vec::new();
        let mut i: usize = 0;
        while i < rows
            invariant
                i <= rows,
                rows == matrix@.len(),
                is_gf2(matrix@),
                num_cols(matrix@) <= T::bits(),
                num_cols(matrix@) <= usize::BITS,
                ve@.len() == i,
                forall|k: int| 0 <= k < i ==> (#[trigger] ve@[k]).value() == msb_value(matrix@[k]),
            decreases rows - i,
        {
            let row = &matrix.elements[i];
            assert(row@ == matrix@[i as int]);
            assert(binary_row(matrix@[i as int]));
            assert(matrix@[i as int].len() == num_cols(matrix@));
            let value: T = Matrix::<T>::from_vec_to_int_msb(row.as_slice());
            ve.push(value);
            i += 1;
        }
        let packed = InterGF2Matrix::new(ve, cols);
        assert(packed@.0.map_values(|row: T| row.value()) =~= packed_values(matrix@));
        packed
    }
}

} // verus!
