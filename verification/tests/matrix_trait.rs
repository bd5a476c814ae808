use lin_algebra::matrix::{HasElements, Matrix, MatrixTrait};

#[test]
fn pivot_over_gf2_is_the_first_one() {
    assert_eq!(Matrix::<u8>::get_pivot(&vec![0, 0, 2, 1]), Some(3));
    assert_eq!(Matrix::<u8>::get_pivot(&vec![2, 3, 4]), None);
    assert_eq!(Matrix::<u8>::get_pivot(&vec![]), None);
}

#[test]
fn shape_reads_the_first_row() {
    let table = Matrix::<u8>::new(vec![vec![1, 0, 1], vec![0, 1, 1]]);
    assert_eq!(table.nrows(), 2);
    assert_eq!(table.ncols(), 3);
    assert_eq!(table.elements().len(), 2);
    assert_eq!(table.elements()[1], vec![0, 1, 1]);
    let none = Matrix::<u8>::new(vec![]);
    assert_eq!(none.nrows(), 0);
    assert_eq!(none.ncols(), 0);
    let jagged = Matrix::<u8>::new(vec![vec![1], vec![0, 1, 1]]);
    assert_eq!(jagged.ncols(), 1);
}
