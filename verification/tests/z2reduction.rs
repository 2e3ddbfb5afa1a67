use simple_phom::z2reduction::{
    pairing, pairing_with_dimension, reduce, Z2BoundaryMatrix, Z2ReducedMatrix,
};
use simple_phom::z2vector::{Chain, Z2Boundary, Z2Vector, Z2VectorRaw};

fn raw_matrix(columns: Vec<Vec<usize>>) -> Z2BoundaryMatrix<Z2VectorRaw> {
    let mut matrix = Z2BoundaryMatrix::new();
    for column in columns {
        matrix.push(Z2VectorRaw::from(column));
    }
    matrix
}

fn tagged_matrix(columns: Vec<(Vec<usize>, usize)>) -> Z2BoundaryMatrix<Z2Boundary> {
    let mut matrix = Z2BoundaryMatrix::new();
    for (column, dim) in columns {
        matrix.push(Z2Boundary::new(Z2VectorRaw::from(column), dim));
    }
    matrix
}

fn pivots<C: Z2Vector>(matrix: &Z2ReducedMatrix<C>) -> Vec<Option<usize>> {
    (0..matrix.ncols()).map(|i| matrix.lowest(i)).collect()
}

fn pairs(matrix: &Z2ReducedMatrix<Z2Boundary>) -> Vec<(usize, usize, Option<usize>)> {
    let mut it = pairing_with_dimension(matrix);
    let mut out = Vec::new();
    while let Some(pair) = it.next() {
        out.push((pair.dimension, pair.birth, pair.death));
    }
    out
}

#[test]
fn new_matrix_has_no_columns() {
    let matrix: Z2BoundaryMatrix<Z2VectorRaw> = Z2BoundaryMatrix::new();
    assert_eq!(matrix.ncols(), 0);
    assert!(matrix.get_column(0).is_none());
}

#[test]
fn matrix_push_appends_on_the_right() {
    let matrix = raw_matrix(vec![vec![], vec![0], vec![1, 0]]);
    assert_eq!(matrix.ncols(), 3);
    assert!(matrix.get_column(0).unwrap().indices().is_empty());
    assert_eq!(matrix.get_column(1).unwrap().indices(), &[0]);
    assert_eq!(matrix.get_column(2).unwrap().indices(), &[1, 0]);
    assert!(matrix.get_column(3).is_none());
    assert_eq!(matrix.lowest(0), None);
    assert_eq!(matrix.lowest(1), Some(0));
    assert_eq!(matrix.lowest(2), Some(1));
}

#[test]
fn reduce_of_no_columns() {
    let reduced = reduce(raw_matrix(vec![]));
    assert_eq!(reduced.ncols(), 0);
    assert_eq!(reduced.lowest(0), None);
    assert!(reduced.get_column(0).is_none());
}

#[test]
fn reduce_leaves_distinct_pivots_alone() {
    let reduced = reduce(raw_matrix(vec![vec![], vec![0], vec![1, 0], vec![2]]));
    assert_eq!(pivots(&reduced), vec![None, Some(0), Some(1), Some(2)]);
    assert_eq!(reduced.get_column(2).unwrap().indices(), &[1, 0]);
}

#[test]
fn reduce_adds_the_earlier_column_with_the_same_pivot() {
    let reduced = reduce(raw_matrix(vec![vec![2, 1], vec![2, 0], vec![1, 0]]));
    assert_eq!(reduced.ncols(), 3);
    assert_eq!(reduced.get_column(0).unwrap().indices(), &[2, 1]);
    assert_eq!(reduced.get_column(1).unwrap().indices(), &[1, 0]);
    assert!(reduced.get_column(2).unwrap().indices().is_empty());
    assert_eq!(pivots(&reduced), vec![Some(2), Some(1), None]);
}

#[test]
fn reduce_goes_on_until_the_pivot_is_new() {
    let reduced = reduce(raw_matrix(vec![vec![3], vec![2], vec![3, 2, 1], vec![3, 2, 1, 0]]));
    assert_eq!(reduced.get_column(2).unwrap().indices(), &[1]);
    assert_eq!(reduced.get_column(3).unwrap().indices(), &[0]);
    assert_eq!(pivots(&reduced), vec![Some(3), Some(2), Some(1), Some(0)]);
}

#[test]
fn reduce_of_equal_columns_empties_all_but_the_first() {
    let reduced = reduce(raw_matrix(vec![vec![4, 1], vec![4, 1], vec![4, 1]]));
    assert_eq!(pivots(&reduced), vec![Some(4), None, None]);
    assert_eq!(reduced.get_column(0).unwrap().indices(), &[4, 1]);
}

#[test]
fn reduced_pivots_are_distinct() {
    let reduced = reduce(raw_matrix(vec![
        vec![5, 2],
        vec![5, 3],
        vec![3, 2],
        vec![5, 4, 1],
        vec![4, 1],
        vec![5],
        vec![2, 0],
    ]));
    let table = pivots(&reduced);
    for j in 0..table.len() {
        for k in 0..table.len() {
            if j != k && table[j].is_some() {
                assert_ne!(table[j], table[k]);
            }
        }
    }
}

#[test]
fn reduce_keeps_the_dimensions() {
    let reduced = reduce(tagged_matrix(vec![
        (vec![], 0),
        (vec![], 0),
        (vec![1, 0], 1),
        (vec![1, 0], 1),
        (vec![3, 2], 2),
    ]));
    let dims: Vec<usize> =
        (0..5).map(|i| reduced.get_column(i).unwrap().chain_dim()).collect();
    assert_eq!(dims, vec![0, 0, 1, 1, 2]);
    assert_eq!(pivots(&reduced), vec![None, None, Some(1), None, Some(3)]);
}

#[test]
fn reduced_lowest_outside_the_matrix_is_none() {
    let reduced = reduce(raw_matrix(vec![vec![0]]));
    assert_eq!(reduced.lowest(0), Some(0));
    assert_eq!(reduced.lowest(1), None);
    assert_eq!(reduced.lowest(usize::MAX), None);
}

#[test]
fn pairing_of_no_columns_is_empty() {
    let reduced = reduce(tagged_matrix(vec![]));
    assert!(pairing(&reduced).next().is_none());
    assert!(pairing_with_dimension(&reduced).next().is_none());
}

#[test]
fn pairing_of_two_points_and_an_edge() {
    let reduced = reduce(tagged_matrix(vec![(vec![], 0), (vec![], 0), (vec![1, 0], 1)]));
    assert_eq!(pairs(&reduced), vec![(0, 0, None), (0, 1, Some(2))]);
}

#[test]
fn pairing_takes_the_first_death_to_the_right() {
    let reduced = reduce(tagged_matrix(vec![
        (vec![1], 1),
        (vec![], 0),
        (vec![], 0),
        (vec![2], 1),
    ]));
    assert_eq!(pairs(&reduced), vec![(0, 1, None), (0, 2, Some(3))]);
}

#[test]
fn pairing_of_a_hollow_triangle_has_an_essential_loop() {
    let reduced = reduce(tagged_matrix(vec![
        (vec![], 0),
        (vec![], 0),
        (vec![], 0),
        (vec![1, 0], 1),
        (vec![2, 0], 1),
        (vec![2, 1], 1),
    ]));
    assert_eq!(
        pairs(&reduced),
        vec![(0, 0, None), (0, 1, Some(3)), (0, 2, Some(4)), (1, 5, None)]
    );
}

#[test]
fn pairing_starts_afresh_on_each_call() {
    let reduced = reduce(tagged_matrix(vec![(vec![], 0), (vec![], 0), (vec![1, 0], 1)]));
    let mut first = pairing(&reduced);
    let a = first.next().unwrap();
    assert_eq!((a.birth, a.death), (0, None));
    let mut second = pairing(&reduced);
    let b = second.next().unwrap();
    assert_eq!((b.birth, b.death), (0, None));
    let c = first.next().unwrap();
    assert_eq!((c.birth, c.death), (1, Some(2)));
    assert!(first.next().is_none());
    assert!(first.next().is_none());
}

#[test]
fn pairs_do_not_depend_on_earlier_column_additions() {
    let columns = vec![
        (vec![], 0),
        (vec![], 0),
        (vec![], 0),
        (vec![], 0),
        (vec![1, 0], 1),
        (vec![2, 0], 1),
        (vec![3, 1], 1),
        (vec![3, 2], 1),
        (vec![2, 1], 1),
        (vec![8, 5, 4], 2),
    ];
    let expected = pairs(&reduce(tagged_matrix(columns.clone())));

    // Column 7 with column 6 added beforehand, column 9 with column 4 added.
    let mut changed = columns.clone();
    changed[7] = (vec![2, 1], 1);
    changed[9] = (vec![8, 5, 4, 1, 0], 2);
    let reduced = reduce(tagged_matrix(changed));
    assert_eq!(pairs(&reduced), expected);
    assert_eq!(
        expected,
        vec![
            (0, 0, None),
            (0, 1, Some(4)),
            (0, 2, Some(5)),
            (0, 3, Some(6)),
            (1, 7, None),
            (1, 8, Some(9)),
        ]
    );
}
