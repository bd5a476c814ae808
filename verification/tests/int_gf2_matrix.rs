use lin_algebra::int_gf2_matrix::{BitOrder, InterGF2Matrix};

#[test]
fn test_from_int_matrix_to_gf2_matrix_u8_lsb() {
    let elements = vec![0, 1, 2, 4, 8];
    let int_matrix = InterGF2Matrix::<u8>::new(elements.clone(), 4);
    let gf2_matrix = int_matrix.from_int_matrix_to_gf2_matrix(BitOrder::LSB);
    let expected = vec![
        vec![0, 0, 0, 0],
        vec![1, 0, 0, 0],
        vec![0, 1, 0, 0],
        vec![0, 0, 1, 0],
        vec![0, 0, 0, 1],
    ];
    assert_eq!(gf2_matrix.elements, expected);

    let elements = vec![0, 1, 2, 3, 5];
    let int_matrix = InterGF2Matrix::<u8>::new(elements.clone(), 4);
    let gf2_matrix = int_matrix.from_int_matrix_to_gf2_matrix(BitOrder::LSB);
    let expected = vec![
        vec![0, 0, 0, 0],
        vec![1, 0, 0, 0],
        vec![0, 1, 0, 0],
        vec![1, 1, 0, 0],
        vec![1, 0, 1, 0],
    ];
    assert_eq!(gf2_matrix.elements, expected);
}

#[test]
fn test_from_int_matrix_to_gf2_matrix_u8_msb() {
    let elements = vec![0, 1, 2, 4, 8];
    let int_matrix = InterGF2Matrix::<u8>::new(elements.clone(), 4);
    let gf2_matrix = int_matrix.from_int_matrix_to_gf2_matrix(BitOrder::MSB);
    let expected = vec![
        vec![0, 0, 0, 0],
        vec![0, 0, 0, 1],
        vec![0, 0, 1, 0],
        vec![0, 1, 0, 0],
        vec![1, 0, 0, 0],
    ];
    assert_eq!(gf2_matrix.elements, expected);

    let elements = vec![0, 1, 2, 3, 5];
    let int_matrix = InterGF2Matrix::<u8>::new(elements.clone(), 4);
    let gf2_matrix = int_matrix.from_int_matrix_to_gf2_matrix(BitOrder::MSB);
    let expected = vec![
        vec![0, 0, 0, 0],
        vec![0, 0, 0, 1],
        vec![0, 0, 1, 0],
        vec![0, 0, 1, 1],
        vec![0, 1, 0, 1],
    ];
    assert_eq!(gf2_matrix.elements, expected);
}

#[test]
fn packed_matrix_reports_its_shape_and_rows() {
    let int_matrix = InterGF2Matrix::<u8>::new(vec![0b1011, 0b0101, 0], 4);
    assert_eq!(int_matrix.nrows(), 3);
    assert_eq!(int_matrix.ncols(), 4);
    assert_eq!(int_matrix.row(0), 0b1011);
    assert_eq!(int_matrix.row(1), 0b0101);
    assert_eq!(int_matrix.row(2), 0);
}

#[test]
fn packed_matrix_without_rows_or_columns() {
    let none = InterGF2Matrix::<u8>::new(vec![], 4);
    assert_eq!(none.nrows(), 0);
    let empty: Vec<Vec<u8>> = vec![];
    assert_eq!(none.from_int_matrix_to_gf2_matrix(BitOrder::MSB).elements, empty);
    let narrow = InterGF2Matrix::<u8>::new(vec![7, 9], 0);
    let rows: Vec<Vec<u8>> = vec![vec![], vec![]];
    assert_eq!(narrow.from_int_matrix_to_gf2_matrix(BitOrder::LSB).elements, rows);
}

#[test]
fn columns_beyond_the_width_are_zero() {
    let int_matrix = InterGF2Matrix::<u8>::new(vec![0b1000_0001, 255], 10);
    let lsb = int_matrix.from_int_matrix_to_gf2_matrix(BitOrder::LSB);
    assert_eq!(
        lsb.elements,
        vec![
            vec![1, 0, 0, 0, 0, 0, 0, 1, 0, 0],
            vec![1, 1, 1, 1, 1, 1, 1, 1, 0, 0],
        ]
    );
    let msb = int_matrix.from_int_matrix_to_gf2_matrix(BitOrder::MSB);
    assert_eq!(
        msb.elements,
        vec![
            vec![0, 0, 1, 0, 0, 0, 0, 0, 0, 1],
            vec![0, 0, 1, 1, 1, 1, 1, 1, 1, 1],
        ]
    );
}

#[test]
fn high_bits_are_cut_off() {
    let int_matrix = InterGF2Matrix::<u8>::new(vec![0b1111_0110], 3);
    let lsb = int_matrix.from_int_matrix_to_gf2_matrix(BitOrder::LSB);
    assert_eq!(lsb.elements, vec![vec![0, 1, 1]]);
    let msb = int_matrix.from_int_matrix_to_gf2_matrix(BitOrder::MSB);
    assert_eq!(msb.elements, vec![vec![1, 1, 0]]);
}
