use lin_algebra::gf2_matrix::{GF2Matrix, SolveError};
use lin_algebra::matrix::MatrixTrait;

fn samples() -> Vec<Vec<Vec<u8>>> {
    vec![
        vec![],
        vec![vec![], vec![]],
        vec![vec![0]],
        vec![vec![1]],
        vec![vec![0, 0], vec![0, 0]],
        vec![vec![0, 1], vec![1, 0]],
        vec![vec![1, 0], vec![1, 1]],
        vec![vec![1, 1, 0], vec![1, 1, 0], vec![0, 1, 1]],
        vec![vec![0, 0, 1], vec![0, 1, 0], vec![1, 0, 0]],
        vec![vec![1, 0, 0, 0], vec![0, 1, 0, 1], vec![0, 1, 0, 1]],
        vec![vec![0, 0, 0, 0], vec![1, 0, 0, 0], vec![0, 1, 0, 1]],
        vec![vec![1, 1, 1, 1, 1], vec![0, 0, 1, 0, 1], vec![1, 1, 0, 1, 0]],
        vec![vec![0, 1, 1], vec![1, 1, 0], vec![1, 0, 1], vec![1, 1, 1], vec![0, 0, 1]],
        vec![vec![1, 0, 0], vec![0, 1, 1], vec![1, 0, 1], vec![1, 1, 1]],
    ]
}

fn times(matrix: &Vec<Vec<u8>>, v: &Vec<u8>) -> Vec<u8> {
    let mut out = Vec::new();
    for row in matrix {
        let mut sum = 0u32;
        for c in 0..row.len() {
            sum += (row[c] as u32) * (v[c] as u32);
        }
        out.push((sum % 2) as u8);
    }
    out
}

#[test]
fn reducing_twice_is_reducing_once() {
    for table in samples() {
        let (once, _) = GF2Matrix::new(table).echelon_form();
        let (twice, _) = once.echelon_form();
        assert_eq!(twice.elements, once.elements);
    }
}

#[test]
fn reduced_form_is_reduced() {
    for table in samples() {
        let (reduced, _) = GF2Matrix::new(table).echelon_form();
        assert!(reduced.is_reduced_echelon());
        assert!(reduced.is_valid());
    }
}

#[test]
fn reduced_matrix_needs_no_operation() {
    for table in samples() {
        let matrix = GF2Matrix::new(table.clone());
        if matrix.is_reduced_echelon() {
            let (same, ops) = matrix.echelon_form();
            assert!(ops.is_empty());
            assert_eq!(same.elements, table);
        }
    }
    let reduced = GF2Matrix::new(vec![vec![1, 0, 0, 1], vec![0, 1, 0, 1]]);
    assert!(reduced.is_reduced_echelon());
    let (same, ops) = reduced.echelon_form();
    assert_eq!(ops, vec![]);
    assert_eq!(same.elements, vec![vec![1, 0, 0, 1], vec![0, 1, 0, 1]]);
}

#[test]
fn rank_is_bounded_and_kept_by_reduction() {
    for table in samples() {
        let matrix = GF2Matrix::new(table);
        let rank = matrix.rank();
        assert!(rank <= matrix.nrows());
        assert!(rank <= matrix.ncols());
        let (reduced, _) = matrix.echelon_form();
        assert_eq!(reduced.rank(), rank);
    }
}

#[test]
fn rank_counts_independent_rows() {
    assert_eq!(GF2Matrix::new(vec![]).rank(), 0);
    assert_eq!(GF2Matrix::new(vec![vec![0, 0], vec![0, 0]]).rank(), 0);
    assert_eq!(GF2Matrix::new(vec![vec![0, 1], vec![1, 0]]).rank(), 2);
    assert_eq!(
        GF2Matrix::new(vec![vec![1, 1, 0], vec![0, 1, 1], vec![1, 0, 1]]).rank(),
        2
    );
    assert_eq!(
        GF2Matrix::new(vec![vec![1, 0, 0], vec![0, 1, 1], vec![1, 0, 1], vec![1, 1, 1]]).rank(),
        3
    );
}

#[test]
fn kernel_vectors_are_sent_to_zero() {
    for table in samples() {
        let matrix = GF2Matrix::new(table.clone());
        let (reduced, _) = matrix.echelon_form();
        let kernel = matrix.kernel();
        assert_eq!(kernel.len(), matrix.ncols() - matrix.rank());
        for k in &kernel {
            assert_eq!(k.len(), matrix.ncols());
            assert_eq!(times(&reduced.elements, k), vec![0; matrix.nrows()]);
            assert_eq!(times(&table, k), vec![0; matrix.nrows()]);
        }
    }
}

#[test]
fn kernel_has_one_vector_for_each_free_column() {
    let matrix = GF2Matrix::new(vec![vec![1, 1, 0, 1, 0], vec![0, 0, 1, 1, 0]]);
    assert_eq!(
        matrix.kernel(),
        vec![
            vec![1, 1, 0, 0, 0],
            vec![1, 0, 1, 1, 0],
            vec![0, 0, 0, 0, 1],
        ]
    );
    let full = GF2Matrix::new(vec![vec![1, 0], vec![0, 1]]);
    let none: Vec<Vec<u8>> = vec![];
    assert_eq!(full.kernel(), none);
    let zero = GF2Matrix::new(vec![vec![0, 0]]);
    assert_eq!(zero.kernel(), vec![vec![1, 0], vec![0, 1]]);
}

#[test]
fn history_replays_the_reduction_on_each_column() {
    for table in samples() {
        let matrix = GF2Matrix::new(table);
        let (reduced, ops) = matrix.echelon_form();
        for c in 0..matrix.ncols() {
            let replayed = GF2Matrix::apply_operations(&ops, &matrix.column(c));
            assert_eq!(replayed, reduced.column(c));
        }
    }
}

#[test]
fn exchange_is_recorded_as_three_additions() {
    let matrix = GF2Matrix::new(vec![vec![0, 1], vec![1, 0]]);
    let (reduced, ops) = matrix.echelon_form();
    assert_eq!(reduced.elements, vec![vec![1, 0], vec![0, 1]]);
    assert_eq!(ops, vec![(0, 1), (1, 0), (0, 1)]);
}

#[test]
fn elimination_clears_rows_above_and_below() {
    let matrix = GF2Matrix::new(vec![vec![0, 1, 1], vec![1, 1, 0], vec![1, 0, 1], vec![1, 1, 1]]);
    let (reduced, ops) = matrix.echelon_form();
    assert_eq!(
        reduced.elements,
        vec![vec![1, 0, 0], vec![0, 1, 0], vec![0, 0, 1], vec![0, 0, 0]]
    );
    assert_eq!(
        ops,
        vec![
            (0, 1),
            (1, 0),
            (0, 1),
            (2, 0),
            (3, 0),
            (0, 1),
            (2, 1),
            (2, 3),
            (3, 2),
            (2, 3),
            (0, 2),
            (1, 2),
        ]
    );
}

#[test]
fn column_without_a_one_is_passed_over() {
    let matrix = GF2Matrix::new(vec![vec![0, 0, 1], vec![0, 1, 1]]);
    let (reduced, ops) = matrix.echelon_form();
    assert_eq!(reduced.elements, vec![vec![0, 1, 0], vec![0, 0, 1]]);
    assert_eq!(ops, vec![(0, 1), (1, 0), (0, 1), (0, 1)]);
}

#[test]
fn empty_matrices_are_left_as_they_are() {
    let none = GF2Matrix::new(vec![]);
    let (reduced, ops) = none.echelon_form();
    let empty: Vec<Vec<u8>> = vec![];
    assert_eq!(reduced.elements, empty);
    assert_eq!(ops, vec![]);
    assert_eq!(none.nrows(), 0);
    assert_eq!(none.ncols(), 0);
    assert!(none.is_reduced_echelon());
    assert_eq!(none.kernel(), empty);
    assert_eq!(none.image(), empty);

    let narrow = GF2Matrix::new(vec![vec![], vec![], vec![]]);
    let (reduced, ops) = narrow.echelon_form();
    let rows: Vec<Vec<u8>> = vec![vec![], vec![], vec![]];
    assert_eq!(reduced.elements, rows);
    assert_eq!(ops, vec![]);
    assert_eq!(narrow.nrows(), 3);
    assert_eq!(narrow.ncols(), 0);
    assert_eq!(narrow.rank(), 0);
    assert_eq!(narrow.kernel(), empty);
    assert_eq!(narrow.image(), empty);
}

#[test]
fn image_is_the_rows_of_the_reduced_form_that_are_not_zero() {
    let matrix = GF2Matrix::new(vec![vec![1, 1, 0], vec![1, 1, 0], vec![0, 1, 1]]);
    assert_eq!(matrix.image(), vec![vec![1, 0, 1], vec![0, 1, 1]]);
    for table in samples() {
        let matrix = GF2Matrix::new(table);
        assert_eq!(matrix.image().len(), matrix.rank());
    }
}

#[test]
fn operations_replay_in_their_order() {
    let v = vec![1, 0, 1];
    assert_eq!(GF2Matrix::apply_operations(&vec![], &v), vec![1, 0, 1]);
    assert_eq!(GF2Matrix::apply_operations(&vec![(1, 0)], &v), vec![1, 1, 1]);
    assert_eq!(
        GF2Matrix::apply_operations(&vec![(1, 0), (2, 1)], &v),
        vec![1, 1, 0]
    );
    assert_eq!(
        GF2Matrix::apply_operations(&vec![(2, 1), (1, 0)], &v),
        vec![1, 1, 1]
    );
    assert_eq!(
        GF2Matrix::apply_operations(&vec![(0, 2), (2, 0), (0, 2)], &vec![1, 1, 0]),
        vec![0, 1, 1]
    );
    assert_eq!(
        GF2Matrix::apply_operations(&vec![(0, 1)], &vec![6, 3]),
        vec![5, 3]
    );
}

#[test]
fn column_reads_top_to_bottom() {
    let matrix = GF2Matrix::new(vec![vec![1, 0, 1], vec![0, 0, 1], vec![1, 1, 1]]);
    assert_eq!(matrix.column(0), vec![1, 0, 1]);
    assert_eq!(matrix.column(1), vec![0, 0, 1]);
    assert_eq!(matrix.column(2), vec![1, 1, 1]);
}

#[test]
fn solution_solves_the_system() {
    let table = vec![vec![0, 1, 1], vec![1, 1, 0], vec![1, 0, 1], vec![1, 1, 1], vec![0, 0, 1]];
    let matrix = GF2Matrix::new(table.clone());
    for x in [vec![0, 0, 0], vec![1, 0, 0], vec![0, 1, 1], vec![1, 1, 1], vec![1, 0, 1]] {
        let b = times(&table, &x);
        assert_eq!(matrix.solve(&b), x);
        assert_eq!(matrix.try_solve(&b), Ok(x));
    }
}

#[test]
fn solve_on_no_columns_gives_no_entries() {
    let none = GF2Matrix::new(vec![]);
    assert_eq!(none.solve(&vec![]), vec![]);
    let narrow = GF2Matrix::new(vec![vec![], vec![]]);
    assert_eq!(narrow.solve(&vec![1, 0]), vec![]);
    let right = GF2Matrix::new(vec![vec![1, 0, 1], vec![0, 1, 1]]);
    let solved = narrow.solve_matrix_system(&right);
    let rows: Vec<Vec<u8>> = vec![vec![], vec![], vec![]];
    assert_eq!(solved.elements, rows);
}

#[test]
fn solve_rank_deficient_is_refused() {
    let m = GF2Matrix::new(vec![vec![1, 0, 0], vec![0, 1, 1]]);
    assert_eq!(m.try_solve(&vec![0, 0]), Err(SolveError::RankDeficient));
    assert_eq!(m.try_solve(&vec![0, 1]), Err(SolveError::RankDeficient));
    assert_eq!(m.try_solve(&vec![1, 1]), Err(SolveError::RankDeficient));
    assert_eq!(m.try_solve(&vec![0, 0, 1]), Err(SolveError::RankDeficient));
    assert_eq!(m.try_solve(&vec![]), Err(SolveError::RankDeficient));
}

#[test]
fn solve_matrix_system_rank_deficient_is_refused() {
    let m = GF2Matrix::new(vec![vec![1, 0, 0], vec![0, 1, 1]]);
    let rm = GF2Matrix::new(vec![vec![0, 0, 1], vec![0, 1, 1], vec![1, 1, 1]]);
    assert_eq!(
        m.try_solve_matrix_system(&rm).map(|x| x.elements),
        Err(SolveError::RankDeficient)
    );
}

#[test]
fn malformed_systems_are_refused() {
    let jagged = GF2Matrix::new(vec![vec![1, 0], vec![1]]);
    assert!(!jagged.is_rectangular());
    assert!(!jagged.is_valid());
    assert_eq!(jagged.try_solve(&vec![0, 0]), Err(SolveError::InvalidDimensions));

    let other = GF2Matrix::new(vec![vec![1, 0], vec![2, 1]]);
    assert!(other.is_rectangular());
    assert!(!other.is_binary());
    assert!(!other.is_valid());
    assert_eq!(other.try_solve(&vec![0, 0]), Err(SolveError::NonBinaryEntry));

    let good = GF2Matrix::new(vec![vec![1, 0], vec![1, 1]]);
    assert!(good.is_valid());
    assert_eq!(good.try_solve(&vec![0, 0, 0]), Err(SolveError::InvalidDimensions));
    assert_eq!(good.try_solve(&vec![1]), Err(SolveError::InvalidDimensions));
    assert_eq!(good.try_solve(&vec![1, 0]), Ok(vec![1, 1]));

    let short = GF2Matrix::new(vec![vec![1, 0, 1]]);
    assert_eq!(
        good.try_solve_matrix_system(&short).map(|x| x.elements),
        Err(SolveError::InvalidDimensions)
    );
    assert_eq!(
        good.try_solve_matrix_system(&jagged).map(|x| x.elements),
        Err(SolveError::InvalidDimensions)
    );
    assert_eq!(
        jagged.try_solve_matrix_system(&good).map(|x| x.elements),
        Err(SolveError::InvalidDimensions)
    );
    assert_eq!(
        other.try_solve_matrix_system(&good).map(|x| x.elements),
        Err(SolveError::NonBinaryEntry)
    );
    let right = GF2Matrix::new(vec![vec![1, 0, 1], vec![0, 1, 1]]);
    assert_eq!(
        good.try_solve_matrix_system(&right).map(|x| x.elements),
        Ok(vec![vec![1, 1], vec![0, 1], vec![1, 0]])
    );
}

#[test]
fn clone_copies_the_table() {
    let matrix = GF2Matrix::new(vec![vec![1, 0, 1], vec![0, 1, 1]]);
    let copy = matrix.clone();
    assert_eq!(copy.elements, matrix.elements);
}
