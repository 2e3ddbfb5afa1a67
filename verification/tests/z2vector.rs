use simple_phom::z2vector::{Chain, Z2Boundary, Z2Vector, Z2VectorRaw};

fn vector(indices: Vec<usize>) -> Z2VectorRaw {
    Z2VectorRaw::from(indices)
}

#[test]
fn zero_has_no_entries() {
    let z = Z2VectorRaw::zero();
    assert!(z.indices().is_empty());
    assert_eq!(z.lowest(), None);
    assert_eq!(z, vector(vec![]));
}

#[test]
fn from_lists_the_indices_in_descending_order() {
    assert_eq!(vector(vec![1, 5, 3]).indices(), &[5, 3, 1]);
    assert_eq!(vector(vec![0]).indices(), &[0]);
    assert_eq!(vector(vec![9, 8, 7]).indices(), &[9, 8, 7]);
    assert_eq!(vector(vec![0, 1, 2]).indices(), &[2, 1, 0]);
}

#[test]
fn from_keeps_each_index_once() {
    assert_eq!(vector(vec![2, 2, 7, 2]).indices(), &[7, 2]);
    assert_eq!(vector(vec![4, 4]).indices(), &[4]);
}

#[test]
fn pivot_is_the_largest_index() {
    assert_eq!(vector(vec![1, 5, 3]).lowest(), Some(5));
    assert_eq!(vector(vec![0]).lowest(), Some(0));
    assert_eq!(vector(vec![usize::MAX, 2]).lowest(), Some(usize::MAX));
    assert_eq!(vector(vec![]).lowest(), None);
}

#[test]
fn add_is_the_symmetric_difference() {
    let a = vector(vec![0, 1, 2]);
    let b = vector(vec![1, 2, 3]);
    assert_eq!(a.add(&b).indices(), &[3, 0]);
    let c = vector(vec![5, 3, 1]);
    let d = vector(vec![4, 3]);
    assert_eq!(c.add(&d).indices(), &[5, 4, 1]);
    assert_eq!(d.add(&c).indices(), &[5, 4, 1]);
}

#[test]
fn add_of_disjoint_vectors_is_their_union() {
    let a = vector(vec![6, 2]);
    let b = vector(vec![5, 1]);
    assert_eq!(a.add(&b).indices(), &[6, 5, 2, 1]);
}

#[test]
fn add_with_one_side_used_up_first() {
    let a = vector(vec![9, 8]);
    let b = vector(vec![3, 2, 1]);
    assert_eq!(a.add(&b).indices(), &[9, 8, 3, 2, 1]);
    assert_eq!(b.add(&a).indices(), &[9, 8, 3, 2, 1]);
}

#[test]
fn add_is_commutative() {
    let a = vector(vec![0, 2, 4, 6]);
    let b = vector(vec![1, 2, 3, 4]);
    assert_eq!(a.add(&b), b.add(&a));
}

#[test]
fn add_to_itself_is_zero() {
    let a = vector(vec![0, 2, 4, 6]);
    assert_eq!(a.add(&a), Z2VectorRaw::zero());
    let z = Z2VectorRaw::zero();
    assert_eq!(z.add(&z), Z2VectorRaw::zero());
}

#[test]
fn zero_is_the_identity_of_add() {
    let a = vector(vec![7, 3]);
    let z = Z2VectorRaw::zero();
    assert_eq!(a.add(&z), a);
    assert_eq!(z.add(&a), a);
}

#[test]
fn add_is_associative() {
    let a = vector(vec![0, 1, 5]);
    let b = vector(vec![1, 2, 5]);
    let c = vector(vec![2, 3, 5]);
    assert_eq!(a.add(&b).add(&c), a.add(&b.add(&c)));
    assert_eq!(a.add(&b).add(&c).indices(), &[5, 3, 0]);
}

#[test]
fn add_of_equal_pivots_lowers_the_pivot() {
    let a = vector(vec![8, 5, 4]);
    let b = vector(vec![8, 6]);
    assert_eq!(a.add(&b).lowest(), Some(6));
}

#[test]
fn vectors_differ_when_their_entries_do() {
    assert!(vector(vec![1, 2]) != vector(vec![1, 3]));
    assert!(vector(vec![1, 2]) != vector(vec![1]));
    assert!(vector(vec![2, 1]) == vector(vec![1, 2]));
}

#[test]
fn boundary_column_keeps_vector_and_dimension() {
    let b = Z2Boundary::new(vector(vec![1, 0]), 1);
    assert_eq!(b.chain_dim(), 1);
    assert_eq!(b.lowest(), Some(1));
    assert!(!b.is_cycle());
    assert_eq!(b.vector().indices(), &[1, 0]);
}

#[test]
fn empty_boundary_column_is_a_cycle() {
    let b = Z2Boundary::new(Z2VectorRaw::zero(), 0);
    assert!(b.is_cycle());
    assert_eq!(b.lowest(), None);
    assert_eq!(b.chain_dim(), 0);
}

#[test]
fn sum_of_columns_has_the_dimension_of_the_left_one() {
    let a = Z2Boundary::new(vector(vec![3, 2]), 1);
    let b = Z2Boundary::new(vector(vec![3, 1]), 4);
    let sum = a.add(&b);
    assert_eq!(sum.chain_dim(), 1);
    assert_eq!(sum.vector().indices(), &[2, 1]);
    let other = b.add(&a);
    assert_eq!(other.chain_dim(), 4);
    assert_eq!(other.vector().indices(), &[2, 1]);
}
