use std::collections::BTreeSet;
use umesh::{ConnectionMatrix, MeshError};

fn square() -> ConnectionMatrix {
    ConnectionMatrix::from_vec(vec![
        (0, 0),
        (0, 2),
        (1, 0),
        (1, 1),
        (2, 1),
        (2, 3),
        (3, 0),
        (3, 3),
    ])
}

#[test]
fn connnection_matrix_square() {
    // 1 0 1 0
    // 1 1 0 0
    // 0 1 0 1
    // 1 0 0 1
    let mat = ConnectionMatrix::from_vec(vec![
        (0, 0),
        (0, 2),
        (1, 0),
        (1, 1),
        (2, 1),
        (2, 3),
        (3, 0),
        (3, 3),
    ]);
    assert_eq!(mat.row_pointers(), vec![0, 2, 4, 6, 8]);
    assert_eq!(mat.columns(), vec![0, 2, 0, 1, 1, 3, 0, 3]);
    assert_eq!(mat.shape(), (4, 4));
}

#[test]
fn connnection_matrix_nonsquare() {
    // 1 0 1 0
    // 0 1 0 1
    // 1 0 0 1
    let mat = ConnectionMatrix::from_vec(vec![(0, 0), (0, 2), (1, 1), (1, 3), (2, 0), (2, 3)]);
    assert_eq!(mat.row_pointers(), vec![0, 2, 4, 6]);
    assert_eq!(mat.columns(), vec![0, 2, 1, 3, 0, 3]);
    assert_eq!(mat.shape(), (3, 4));
}

#[test]
fn connnection_matrix_empty_row() {
    // 1 0 1 0
    // 0 0 0 0
    // 0 1 0 1
    // 1 0 0 1
    let mat = ConnectionMatrix::from_vec(vec![(0, 0), (0, 2), (2, 1), (2, 3), (3, 0), (3, 3)]);
    assert_eq!(mat.row_pointers(), vec![0, 2, 2, 4, 6]);
    assert_eq!(mat.columns(), vec![0, 2, 1, 3, 0, 3]);
    assert_eq!(mat.shape(), (4, 4));
}

#[test]
fn indices_iter() {
    // 1 0 0 0
    // 0 1 0 0
    // 0 1 0 1
    // 1 0 0 1
    let mat = ConnectionMatrix::from_vec(vec![(0, 0), (1, 1), (2, 1), (2, 3), (3, 0), (3, 3)]);
    let mat2 = ConnectionMatrix::from_iter(mat.indices());
    assert_eq!(mat, mat2);
}

#[test]
fn square_matrix_row_two() {
    let mat = square();
    assert_eq!(mat.get_connected(2), Ok(&[1usize, 3][..]));
    assert_eq!(mat.get_connected(0), Ok(&[0usize, 2][..]));
    assert_eq!(mat.get_connected(3), Ok(&[0usize, 3][..]));
}

#[test]
fn row_beyond_the_shape_is_refused() {
    let mat = square();
    assert_eq!(mat.get_connected(4), Err(MeshError::IndexOutOfRange));
    assert_eq!(mat.get_connected(usize::MAX), Err(MeshError::IndexOutOfRange));
}

#[test]
fn empty_row_is_an_empty_slice() {
    let mat = ConnectionMatrix::from_vec(vec![(0, 0), (0, 2), (2, 1), (2, 3), (3, 0), (3, 3)]);
    assert_eq!(mat.get_connected(1), Ok(&[][..]));
}

#[test]
fn pairs_are_sorted_and_duplicates_kept() {
    let mat = ConnectionMatrix::from_vec(vec![(1, 1), (0, 2), (1, 1), (0, 0)]);
    assert_eq!(mat.row_pointers(), vec![0, 2, 4]);
    assert_eq!(mat.columns(), vec![0, 2, 1, 1]);
    assert_eq!(mat.shape(), (2, 3));
    let pairs: Vec<(usize, usize)> = mat.indices().collect();
    assert_eq!(pairs, vec![(0, 0), (0, 2), (1, 1), (1, 1)]);
}

#[test]
fn matrix_without_pairs_has_one_row_and_one_column() {
    let mat = ConnectionMatrix::from_vec(vec![]);
    assert_eq!(mat.shape(), (1, 1));
    assert_eq!(mat.row_pointers(), vec![0, 0]);
    assert_eq!(mat.columns(), Vec::<usize>::new());
    assert_eq!(mat.get_connected(0), Ok(&[][..]));
    assert_eq!(mat.indices().next(), None);
}

#[test]
fn shape_counts_up_to_the_largest_column() {
    let mat = ConnectionMatrix::from_vec(vec![(0, 7), (5, 2)]);
    assert_eq!(mat.shape(), (6, 8));
    assert_eq!(mat.row_pointers(), vec![0, 1, 1, 1, 1, 1, 2]);
}

#[test]
fn sorted_input_is_taken_as_it_is() {
    let pairs = vec![(0, 0), (0, 2), (1, 0), (1, 1), (2, 1), (2, 3), (3, 0), (3, 3)];
    let mat = ConnectionMatrix::from_sorted_vec(pairs).unwrap();
    assert_eq!(mat, square());
    assert_eq!(mat.row_pointers(), vec![0, 2, 4, 6, 8]);
}

#[test]
fn unsorted_input_is_refused_where_order_is_promised() {
    let by_row = ConnectionMatrix::from_sorted_vec(vec![(1, 0), (0, 0)]);
    assert_eq!(by_row.err(), Some(MeshError::UnsortedInputViolation));
    let by_column = ConnectionMatrix::from_sorted_vec(vec![(0, 2), (0, 1)]);
    assert_eq!(by_column.err(), Some(MeshError::UnsortedInputViolation));
    assert!(ConnectionMatrix::from_sorted_vec(vec![(0, 1), (0, 1)]).is_ok());
    assert!(ConnectionMatrix::from_sorted_vec(vec![]).is_ok());
}

#[test]
fn iterator_yields_the_pairs_in_order_and_can_start_again() {
    let mat = ConnectionMatrix::from_vec(vec![(3, 3), (0, 0), (2, 3), (3, 0), (2, 1), (1, 1)]);
    let mut pairs = mat.indices();
    assert_eq!(pairs.next(), Some((0, 0)));
    assert_eq!(pairs.next(), Some((1, 1)));
    assert_eq!(pairs.next(), Some((2, 1)));
    assert_eq!(pairs.next(), Some((2, 3)));
    assert_eq!(pairs.next(), Some((3, 0)));
    assert_eq!(pairs.next(), Some((3, 3)));
    assert_eq!(pairs.next(), None);
    assert_eq!(pairs.next(), None);
    let again: Vec<(usize, usize)> = mat.indices().collect();
    assert_eq!(again, vec![(0, 0), (1, 1), (2, 1), (2, 3), (3, 0), (3, 3)]);
}

#[test]
fn iterator_skips_empty_rows() {
    let mat = ConnectionMatrix::from_vec(vec![(0, 5), (4, 1), (4, 2)]);
    let pairs: Vec<(usize, usize)> = mat.indices().collect();
    assert_eq!(pairs, vec![(0, 5), (4, 1), (4, 2)]);
}

#[test]
fn building_from_the_pairs_of_a_matrix_gives_the_matrix() {
    let inputs: Vec<Vec<(usize, usize)>> = vec![
        vec![],
        vec![(0, 0)],
        vec![(5, 1), (0, 3), (5, 0), (2, 2), (0, 3)],
        vec![(0, 0), (0, 2), (2, 1), (2, 3), (3, 0), (3, 3)],
    ];
    for pairs in inputs {
        let mat = ConnectionMatrix::from_vec(pairs);
        let listed: Vec<(usize, usize)> = mat.indices().collect();
        assert_eq!(ConnectionMatrix::from_vec(listed.clone()), mat);
        assert_eq!(ConnectionMatrix::from_sorted_vec(listed).unwrap(), mat);
        assert_eq!(ConnectionMatrix::from_iter(mat.indices()), mat);
    }
}

#[test]
fn matrices_with_other_pairs_differ() {
    let a = ConnectionMatrix::from_vec(vec![(0, 0), (1, 1)]);
    let b = ConnectionMatrix::from_vec(vec![(0, 0), (1, 2)]);
    let c = ConnectionMatrix::from_vec(vec![(0, 0), (2, 1)]);
    assert_ne!(a, b);
    assert_ne!(a, c);
    assert_eq!(a, a.clone());
}

#[test]
fn transpose_exchanges_rows_and_columns() {
    let t = square().transpose();
    assert_eq!(t.row_pointers(), vec![0, 3, 5, 6, 8]);
    assert_eq!(t.columns(), vec![0, 1, 3, 1, 2, 0, 2, 3]);
    assert_eq!(t.shape(), (4, 4));
}

#[test]
fn transpose_exchanges_the_shape() {
    let mat = ConnectionMatrix::from_vec(vec![(0, 0), (0, 2), (1, 1), (1, 3), (2, 0), (2, 3)]);
    let t = mat.transpose();
    assert_eq!(mat.shape(), (3, 4));
    assert_eq!(t.shape(), (4, 3));
    let wide = ConnectionMatrix::from_vec(vec![(0, 9)]);
    assert_eq!(wide.transpose().shape(), (10, 1));
    assert_eq!(wide.transpose().get_connected(9), Ok(&[0usize][..]));
    assert_eq!(ConnectionMatrix::from_vec(vec![]).transpose().shape(), (1, 1));
}

#[test]
fn transposing_twice_gives_the_matrix() {
    let mat = ConnectionMatrix::from_vec(vec![(0, 0), (0, 2), (2, 1), (2, 3), (3, 0), (3, 3)]);
    assert_eq!(mat.transpose().transpose(), mat);
    assert_eq!(square().transpose().transpose(), square());
}

#[test]
fn map_gathers_the_columns_of_the_rows() {
    let mat = square();
    assert_eq!(mat.map(&[0, 1]), Ok(vec![0, 1, 2]));
    assert_eq!(mat.map(&[2]), Ok(vec![1, 3]));
    assert_eq!(mat.map(&[3, 0, 3]), Ok(vec![0, 2, 3]));
    assert_eq!(mat.map(&[0, 1, 2, 3]), Ok(vec![0, 1, 2, 3]));
}

#[test]
fn map_of_no_rows_is_empty() {
    assert_eq!(square().map(&[]), Ok(vec![]));
}

#[test]
fn map_gives_each_column_once() {
    let mat = ConnectionMatrix::from_vec(vec![(0, 4), (0, 4), (1, 4), (1, 2)]);
    assert_eq!(mat.map(&[0]), Ok(vec![4]));
    assert_eq!(mat.map(&[1, 0]), Ok(vec![2, 4]));
}

#[test]
fn map_refuses_a_row_beyond_the_shape() {
    assert_eq!(square().map(&[0, 4]), Err(MeshError::IndexOutOfRange));
    assert_eq!(square().map(&[17]), Err(MeshError::IndexOutOfRange));
}

#[test]
fn gather_connected_works_on_sets() {
    let mat = square();
    let rows: BTreeSet<usize> = [1, 2].into_iter().collect();
    let columns: BTreeSet<usize> = [0, 1, 3].into_iter().collect();
    assert_eq!(mat.gather_connected(&rows), Ok(columns));
    assert_eq!(mat.gather_connected(&BTreeSet::new()), Ok(BTreeSet::new()));
    let beyond: BTreeSet<usize> = [1, 4].into_iter().collect();
    assert_eq!(mat.gather_connected(&beyond), Err(MeshError::IndexOutOfRange));
}
