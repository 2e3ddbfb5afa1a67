use simple_phom::simplex::{DegenerateSimplex, Simplex};

fn simplex(vertices: Vec<usize>) -> Simplex {
    Simplex::construct(vertices).unwrap()
}

fn faces(s: &Simplex) -> Vec<Vec<usize>> {
    let mut it = s.boundary();
    let mut out = Vec::new();
    while let Some(face) = it.next() {
        out.push(face.vertices().to_vec());
    }
    out
}

#[test]
fn construct_orders_the_vertices() {
    let s = simplex(vec![2, 0, 1]);
    assert_eq!(s.vertices(), &[0, 1, 2]);
    let t = simplex(vec![9, 4]);
    assert_eq!(t.vertices(), &[4, 9]);
}

#[test]
fn construct_rejects_no_vertices() {
    assert!(matches!(Simplex::construct(vec![]), Err(DegenerateSimplex)));
}

#[test]
fn construct_rejects_a_repeated_vertex() {
    assert!(matches!(Simplex::construct(vec![1, 1]), Err(DegenerateSimplex)));
    assert!(matches!(Simplex::construct(vec![0, 1, 0]), Err(DegenerateSimplex)));
    assert!(matches!(Simplex::construct(vec![3, 2, 1, 2]), Err(DegenerateSimplex)));
}

#[test]
fn dimension_is_vertex_count_less_one() {
    assert_eq!(simplex(vec![7]).dimension(), 0);
    assert_eq!(simplex(vec![0, 1]).dimension(), 1);
    assert_eq!(simplex(vec![0, 1, 2]).dimension(), 2);
    assert_eq!(simplex(vec![5, 3, 8, 1]).dimension(), 3);
}

#[test]
fn boundary_of_a_triangle() {
    let s = simplex(vec![0, 1, 2]);
    assert_eq!(faces(&s), vec![vec![1, 2], vec![0, 2], vec![0, 1]]);
}

#[test]
fn boundary_of_an_edge() {
    let s = simplex(vec![7, 3]);
    assert_eq!(faces(&s), vec![vec![7], vec![3]]);
}

#[test]
fn boundary_of_a_tetrahedron() {
    let s = simplex(vec![0, 1, 2, 3]);
    assert_eq!(
        faces(&s),
        vec![vec![1, 2, 3], vec![0, 2, 3], vec![0, 1, 3], vec![0, 1, 2]]
    );
}

#[test]
fn a_vertex_has_no_faces() {
    let s = simplex(vec![4]);
    let mut it = s.boundary();
    assert!(it.next().is_none());
    assert!(it.next().is_none());
}

#[test]
fn boundary_starts_afresh_on_each_call() {
    let s = simplex(vec![0, 1, 2]);
    let mut first = s.boundary();
    assert_eq!(first.next().unwrap().vertices(), &[1, 2]);
    let second = faces(&s);
    assert_eq!(second.len(), 3);
    assert_eq!(first.next().unwrap().vertices(), &[0, 2]);
    assert_eq!(first.next().unwrap().vertices(), &[0, 1]);
    assert!(first.next().is_none());
    assert!(first.next().is_none());
}

#[test]
fn faces_have_one_dimension_less() {
    let s = simplex(vec![2, 4, 6, 8]);
    let mut it = s.boundary();
    let mut count = 0;
    while let Some(face) = it.next() {
        assert_eq!(face.dimension(), 2);
        count += 1;
    }
    assert_eq!(count, 4);
}

#[test]
fn equality_is_equality_of_vertex_sets() {
    assert!(simplex(vec![0, 1]) == simplex(vec![1, 0]));
    assert!(simplex(vec![0, 1]) != simplex(vec![0, 2]));
    assert!(simplex(vec![0]) != simplex(vec![0, 1]));
    assert!(simplex(vec![0, 1, 2]) != simplex(vec![0, 1]));
    assert_eq!(simplex(vec![5, 1, 3]), simplex(vec![3, 5, 1]));
}
