use lin_algebra::gf2_matrix::GF2Matrix;
use lin_algebra::int_gf2_matrix::{BitOrder, InterGF2Matrix};
use lin_algebra::matrix::{Matrix, Number};

#[test]
fn test_int_mtrix_to_gf2_matrix_convertion() {
    let elements = vec![0, 1, 2, 4, 8];
    let int_matrix = InterGF2Matrix::<u8>::new(elements.clone(), 4);
    let gf2_matrix = GF2Matrix::from(int_matrix);
    let expected = vec![
        vec![0, 0, 0, 0],
        vec![0, 0, 0, 1],
        vec![0, 0, 1, 0],
        vec![0, 1, 0, 0],
        vec![1, 0, 0, 0],
    ];
    assert_eq!(gf2_matrix.elements, expected);

    let int_matrix = InterGF2Matrix::<u8>::new(elements.clone(), 4);
    let gf2_matrix: GF2Matrix = int_matrix.into();
    assert_eq!(gf2_matrix.elements, expected);
}

#[test]
fn test_int_mtrix_to_gf2_matrix_convertion_by_ref() {
    let elements = vec![0, 1, 2, 4, 8];
    let int_matrix = InterGF2Matrix::<u8>::new(elements.clone(), 4);
    let gf2_matrix = GF2Matrix::from(&int_matrix);
    let expected = vec![
        vec![0, 0, 0, 0],
        vec![0, 0, 0, 1],
        vec![0, 0, 1, 0],
        vec![0, 1, 0, 0],
        vec![1, 0, 0, 0],
    ];
    assert_eq!(gf2_matrix.elements, expected);

    let int_matrix = InterGF2Matrix::<u8>::new(elements.clone(), 4);
    let gf2_matrix: GF2Matrix = (&int_matrix).into();
    assert_eq!(gf2_matrix.elements, expected);
}

#[test]
fn bits_pack_with_the_first_entry_most_significant() {
    assert_eq!(Matrix::<u8>::from_vec_to_int_msb(&[]), 0);
    assert_eq!(Matrix::<u8>::from_vec_to_int_msb(&[1]), 1);
    assert_eq!(Matrix::<u8>::from_vec_to_int_msb(&[1, 0]), 2);
    assert_eq!(Matrix::<u8>::from_vec_to_int_msb(&[0, 1, 1]), 3);
    assert_eq!(Matrix::<u8>::from_vec_to_int_msb(&[1, 0, 1, 1]), 11);
    assert_eq!(Matrix::<u8>::from_vec_to_int_msb(&[1, 1, 1, 1, 1, 1, 1, 1]), 255);
    assert_eq!(Matrix::<u8>::from_vec_to_int_msb(&[1, 0, 0, 0, 0, 0, 0, 0]), 128);
}

#[test]
fn matrix_packs_row_by_row() {
    let matrix = GF2Matrix::new(vec![vec![0, 0, 0, 1], vec![1, 0, 1, 0], vec![1, 1, 1, 1]]);
    let packed = InterGF2Matrix::<u8>::from_gf2_matrix(&matrix);
    assert_eq!(packed.nrows(), 3);
    assert_eq!(packed.ncols(), 4);
    assert_eq!(packed.row(0), 1);
    assert_eq!(packed.row(1), 10);
    assert_eq!(packed.row(2), 15);
}

#[test]
fn packing_undoes_unpacking_in_msb_order() {
    let rows: Vec<u8> = vec![0, 1, 2, 4, 8, 5, 15];
    let packed = InterGF2Matrix::<u8>::new(rows.clone(), 4);
    let matrix = packed.from_int_matrix_to_gf2_matrix(BitOrder::MSB);
    let again = InterGF2Matrix::<u8>::from_gf2_matrix(&matrix);
    assert_eq!(again.ncols(), 4);
    assert_eq!(again.nrows(), rows.len());
    for i in 0..rows.len() {
        assert_eq!(again.row(i), rows[i]);
    }
}

#[test]
fn unpacking_undoes_packing_in_msb_order() {
    let table = vec![vec![1, 0, 1, 1, 0], vec![0, 0, 0, 0, 0], vec![1, 1, 1, 1, 1]];
    let packed = InterGF2Matrix::<u8>::from_gf2_matrix(&GF2Matrix::new(table.clone()));
    assert_eq!(GF2Matrix::from(&packed).elements, table);
}

#[test]
fn empty_matrix_packs_to_no_rows() {
    let packed = InterGF2Matrix::<u8>::from_gf2_matrix(&GF2Matrix::new(vec![]));
    assert_eq!(packed.nrows(), 0);
    assert_eq!(packed.ncols(), 0);
}

#[test]
fn number_reads_bits_of_u8() {
    assert_eq!(<u8 as Number>::width(), 8);
    assert!(Number::is_zero(&0u8));
    assert!(!Number::is_zero(&1u8));
    assert!(!Number::is_zero(&128u8));
    assert_eq!(5u8.bit(0), 1);
    assert_eq!(5u8.bit(1), 0);
    assert_eq!(5u8.bit(2), 1);
    assert_eq!(128u8.bit(7), 1);
    assert_eq!(127u8.bit(7), 0);
    assert_eq!(255u8.bit(8), 0);
    assert_eq!(255u8.bit(64), 0);
    assert_eq!(<u8 as Number>::from_usize(0), 0);
    assert_eq!(<u8 as Number>::from_usize(200), 200);
}
