//! The matrix container and the traits that the algorithms are written against.

use vstd::prelude::*;
use vstd::arithmetic::power2::pow2;

verus! {

/// Bit `i` of the natural number `v`, counted from the least significant bit.
pub open spec fn bit_of(v: nat, i: nat) -> nat {
    (v / pow2(i)) % 2
}

/// Calls `<u8 as num_traits::Zero>::is_zero`, which compares its argument
/// with the literal `0`.
#[verifier::external_body]
fn u8_is_zero(x: u8) -> (b: bool)
    ensures
        b == (x == 0),
{
    num_traits::Zero::is_zero(&x)
}

/// Calls `<u8 as num_traits::Zero>::zero`, which returns the literal `0`.
#[verifier::external_body]
fn u8_zero() -> (z: u8)
    ensures
        z == 0,
{
    num_traits::Zero::zero()
}

/// Calls `<u8 as num_traits::One>::one`, which returns the literal `1`.
#[verifier::external_body]
fn u8_one() -> (o: u8)
    ensures
        o == 1,
{
    num_traits::One::one()
}

/// A fixed-width unsigned integer that can hold a packed row of bits.
pub trait Number: Copy + Eq + Ord + std::ops::BitXor<Self> {
    /// The natural number that the value stands for.
    spec fn value(&self) -> nat;

    /// The width of the type in bits.
    spec fn bits() -> nat;

    /// Every value fits in the width of its type.
    proof fn lemma_value_fits(&self)
        ensures
            self.value() < pow2(Self::bits()),
    ;

    /// The width of the type in bits.
    fn width() -> (w: usize)
        ensures
            w == Self::bits(),
    ;

    /// Whether the value is zero.
    fn is_zero(&self) -> (b: bool)
        ensures
            b == (self.value() == 0),
    ;

    /// Bit `i` of the value, as `0` or `1`; bits beyond the width are `0`.
    fn bit(&self, i: usize) -> (b: u8)
        ensures
            b == bit_of(self.value(), i as nat),
    ;

    /// The value of this type that stands for `x`.
    fn from_usize(x: usize) -> (r: Self)
        requires
            x < pow2(Self::bits()),
        ensures
            r.value() == x,
    ;
}

impl Number for u8 {
    open spec fn value(&self) -> nat {
        *self as nat
    }

    open spec fn bits() -> nat {
        8
    }

    proof fn lemma_value_fits(&self) {
        vstd::arithmetic::power2::lemma2_to64();
    }

    fn width() -> (w: usize) {
        8
    }

    fn is_zero(&self) -> (b: bool) {
        u8_is_zero(*self)
    }

    fn bit(&self, i: usize) -> (b: u8) {
        let x: u8 = *self;
        if i < 8 {
            let shift: u8 = i as u8;
            let low: u8 = (x >> shift) & u8_one();
            proof {
                vstd::bits::lemma_u8_shr_is_div(x, shift);
                let y: u8 = x >> shift;
                assert(y & 1 == y % 2) by (bit_vector);
            }
            if low != u8_zero() { 1 } else { 0 }
        } else {
            proof {
                vstd::arithmetic::power2::lemma2_to64();
                if i > 8 {
                    vstd::arithmetic::power2::lemma_pow2_strictly_increases(8, i as nat);
                }
                vstd::arithmetic::div_mod::lemma_basic_div(x as int, pow2(i as nat) as int);
            }
            0
        }
    }

    fn from_usize(x: usize) -> (r: Self) {
        proof {
            vstd::arithmetic::power2::lemma2_to64();
        }
        x as u8
    }
}

/// The rows of a table, each taken as the sequence of its entries.
pub open spec fn rows_of<T>(elements: Seq<Vec<T>>) -> Seq<Seq<T>> {
    elements.map_values(|row: Vec<T>| row@)
}

/// The number of columns of a table: the length of its first row, and 0 for
/// a table without rows.
pub open spec fn num_cols<T>(rows: Seq<Seq<T>>) -> nat {
    if rows.len() == 0 {
        0
    } else {
        rows[0].len()
    }
}

/// Whether `p` is the position of the first entry of `row` that is not zero.
pub open spec fn is_lead<T: Number>(row: Seq<T>, p: int) -> bool {
    &&& 0 <= p < row.len()
    &&& row[p].value() != 0
    &&& forall|j: int| 0 <= j < p ==> (#[trigger] row[j]).value() == 0
}

/// Whether every entry of `row` is zero.
pub open spec fn is_zero_row<T: Number>(row: Seq<T>) -> bool {
    forall|j: int| 0 <= j < row.len() ==> (#[trigger] row[j]).value() == 0
}

/// Access to the table of entries that a matrix holds.
pub trait HasElements<T: Number> {
    /// The rows of the matrix.
    spec fn rows(&self) -> Seq<Seq<T>>;

    /// The table of entries, row by row.
    fn elements(&self) -> (e: &Vec<Vec<T>>)
        ensures
            rows_of(e@) == self.rows(),
    ;
}

/// The linear-algebra operations of a matrix over the field that `T` encodes.
///
/// An implementation states in `well_formed` which tables it works on, and
/// in the `ensures` of each method what the method computes.
pub trait MatrixTrait<T: Number>: HasElements<T> {
    /// The tables that the operations accept.
    spec fn well_formed(&self) -> bool;

    /// The rank of the matrix.
    fn rank(&self) -> usize
        requires
            self.well_formed(),
    ;

    /// A basis of the kernel of the matrix, one vector in each row.
    fn kernel(&self) -> Vec<Vec<T>>
        requires
            self.well_formed(),
    ;

    /// The reduced row-echelon form of the matrix, and the record of the
    /// row operations that lead to it: each `(target, source)` adds row
    /// `source` into row `target`.
    fn echelon_form(&self) -> (Self, Vec<(usize, usize)>) where Self: Sized
        requires
            self.well_formed(),
    ;

    /// A basis of the image of the matrix, one vector in each row.
    fn image(&self) -> Vec<Vec<T>>
        requires
            self.well_formed(),
    ;

    /// Whether the matrix is in reduced row-echelon form.
    fn is_reduced_echelon(&self) -> bool
        requires
            self.well_formed(),
    ;

    /// The number of rows.
    fn nrows(&self) -> (n: usize)
        ensures
            n == self.rows().len(),
    {
        self.elements().len()
    }

    /// The number of columns: the length of the first row, and 0 for a
    /// matrix without rows.
    fn ncols(&self) -> (n: usize)
        ensures
            n == num_cols(self.rows()),
    {
        let e = self.elements();
        if e.len() == 0 {
            0
        } else {
            e[0].len()
        }
    }

    /// The position of the first entry of `vec` that is not zero.
    fn get_pivot(vec: &Vec<T>) -> (p: Option<usize>)
        default_ensures
            match p {
                Some(i) => is_lead(vec@, i as int),
                None => is_zero_row(vec@),
            },
    {
        let mut i: usize = 0;
        while i < vec.len()
            invariant
                i <= vec.len(),
                forall|j: int| 0 <= j < i ==> (#[trigger] vec@[j]).value() == 0,
            decreases vec.len() - i,
        {
            if !vec[i].is_zero() {
                return Some(i);
            }
            i += 1;
        }
        None
    }
}

/// A rectangular table of entries, stored row by row.
#[derive(Debug)]
pub struct Matrix<T: Number> {
    pub elements: Vec<Vec<T>>,
}

impl<T: Number> Clone for Matrix<T> {
    /// A matrix with a table of its own that holds the same entries.
    fn clone(&self) -> (m: Self)
        ensures
            m@ == self@,
    {
        let mut rows: Vec<Vec<T>> = Vec::new();
        let mut i: usize = 0;
        while i < self.elements.len()
            invariant
                i <= self.elements.len(),
                rows_of(rows@) == self@.take(i as int),
            decreases self.elements.len() - i,
        {
            let source = &self.elements[i];
            let mut row: Vec<T> = Vec::new();
            let mut j: usize = 0;
            while j < source.len()
                invariant
                    j <= source.len(),
                    row@ == source@.take(j as int),
                decreases source.len() - j,
            {
                row.push(source[j]);
                assert(source@.take(j + 1) == source@.take(j as int).push(source@[j as int]));
                j += 1;
            }
            assert(source@.take(source.len() as int) == source@);
            let ghost before = rows@;
            rows.push(row);
            assert(rows_of(rows@) =~= rows_of(before).push(source@));
            assert(self@.take(i + 1) =~= self@.take(i as int).push(self@[i as int]));
            i += 1;
        }
        assert(self@.take(self.elements.len() as int) == self@);
        Matrix { elements: rows }
    }
}

impl<T: Number> View for Matrix<T> {
    type V = Seq<Seq<T>>;

    open spec fn view(&self) -> Seq<Seq<T>> {
        rows_of(self.elements@)
    }
}

impl<T: Number> Matrix<T> {
    /// The matrix that holds the table `elements`.
    pub fn new(elements: Vec<Vec<T>>) -> (m: Self)
        ensures
            m.elements == elements,
    {
        Self { elements }
    }
}

impl<T: Number> HasElements<T> for Matrix<T> {
    open spec fn rows(&self) -> Seq<Seq<T>> {
        self@
    }

    fn elements(&self) -> (e: &Vec<Vec<T>>)
        ensures
            *e == self.elements,
    {
        &self.elements
    }
}

} // verus!
