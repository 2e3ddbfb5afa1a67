use simple_phom::filteredcomplex::FilteredComplex;
use simple_phom::simplex::Simplex;
use simple_phom::z2reduction::{pairing, pairing_with_dimension, reduce, Z2BoundaryMatrix};
use simple_phom::z2vector::{Chain, Z2Boundary, Z2Vector};

fn fixture_simplices() -> Vec<Vec<usize>> {
    vec![
        vec![0],
        vec![1],
        vec![2],
        vec![3],
        vec![0, 1],
        vec![0, 2],
        vec![1, 3],
        vec![2, 3],
        vec![1, 2],
        vec![0, 1, 2],
    ]
}

fn fixture_matrix() -> Z2BoundaryMatrix<Z2Boundary> {
    let mut complex = FilteredComplex::new();
    let mut matrix = Z2BoundaryMatrix::new();
    for vertices in fixture_simplices() {
        let simplex = Simplex::construct(vertices).unwrap();
        matrix.push(complex.push(simplex).unwrap());
    }
    matrix
}

#[test]
fn fixture_boundary_columns() {
    let matrix = fixture_matrix();
    let expected: Vec<Vec<usize>> = vec![
        vec![],
        vec![],
        vec![],
        vec![],
        vec![1, 0],
        vec![2, 0],
        vec![3, 1],
        vec![3, 2],
        vec![2, 1],
        vec![8, 5, 4],
    ];
    assert_eq!(matrix.ncols(), 10);
    for (i, column) in expected.iter().enumerate() {
        let got = matrix.get_column(i).unwrap();
        assert_eq!(got.vector().indices(), column.as_slice());
    }
    assert_eq!(matrix.get_column(9).unwrap().chain_dim(), 2);
    assert_eq!(matrix.get_column(4).unwrap().chain_dim(), 1);
    assert_eq!(matrix.get_column(0).unwrap().chain_dim(), 0);
    assert_eq!(matrix.lowest(9), Some(8));
    assert_eq!(matrix.lowest(0), None);
}

#[test]
fn fixture_pivot_table() {
    let reduced = reduce(fixture_matrix());
    let expected =
        vec![None, None, None, None, Some(1), Some(2), Some(3), None, None, Some(8)];
    assert_eq!(reduced.ncols(), 10);
    for (i, pivot) in expected.iter().enumerate() {
        assert_eq!(reduced.lowest(i), *pivot);
    }
    assert_eq!(reduced.lowest(10), None);
    assert!(reduced.get_column(7).unwrap().is_cycle());
    assert!(reduced.get_column(8).unwrap().is_cycle());
    assert_eq!(reduced.get_column(9).unwrap().vector().indices(), &[8, 5, 4]);
    assert_eq!(reduced.get_column(6).unwrap().lowest(), Some(3));
}

#[test]
fn fixture_pairs() {
    let reduced = reduce(fixture_matrix());
    let mut it = pairing(&reduced);
    let mut pairs = Vec::new();
    while let Some(pair) = it.next() {
        pairs.push((pair.birth, pair.death));
    }
    assert_eq!(
        pairs,
        vec![(0, None), (1, Some(4)), (2, Some(5)), (3, Some(6)), (7, None), (8, Some(9))]
    );
    assert!(it.next().is_none());
}

#[test]
fn fixture_pairs_with_dimension() {
    let reduced = reduce(fixture_matrix());
    let mut it = pairing_with_dimension(&reduced);
    let mut pairs = Vec::new();
    while let Some(pair) = it.next() {
        pairs.push((pair.dimension, pair.birth, pair.death));
    }
    assert_eq!(
        pairs,
        vec![
            (0, 0, None),
            (0, 1, Some(4)),
            (0, 2, Some(5)),
            (0, 3, Some(6)),
            (1, 7, None),
            (1, 8, Some(9)),
        ]
    );
    let essential_points: Vec<_> =
        pairs.iter().filter(|p| p.0 == 0 && p.2.is_none()).collect();
    assert_eq!(essential_points, vec![&(0, 0, None)]);
}
