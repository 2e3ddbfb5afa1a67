//! Simplices and their codimension-1 faces.
//!
//! A simplex is modelled by the sequence of its vertices in ascending order.

use crate::order::{
    among, insert_ascending, lemma_among_all, lemma_among_step, lemma_ascending_is_canonical,
    strictly_ascending,
};
use vstd::prelude::*;

verus! {

/// The faces of the simplex with vertices `vertices`: one for each position,
/// with the vertex at that position left out. A single vertex has no faces.
pub open spec fn faces_of(vertices: Seq<usize>) -> Seq<Seq<usize>> {
    if vertices.len() <= 1 {
        Seq::empty()
    } else {
        Seq::new(vertices.len(), |i: int| vertices.remove(i))
    }
}

/// Leaving out one entry of a strictly ascending sequence keeps it strictly
/// ascending, and leaving out different entries gives different sequences.
pub proof fn lemma_faces_ascending_and_distinct(vertices: Seq<usize>)
    requires
        strictly_ascending(vertices),
    ensures
        forall|i: int|
            0 <= i < faces_of(vertices).len() ==> strictly_ascending(
                #[trigger] faces_of(vertices)[i],
            ),
        faces_of(vertices).no_duplicates(),
{
    let f = faces_of(vertices);
    assert forall|i: int| 0 <= i < f.len() implies strictly_ascending(#[trigger] f[i]) by {
        vertices.remove_ensures(i);
    }
    assert forall|i: int, j: int| 0 <= i < f.len() && 0 <= j < f.len() && i != j implies f[i]
        != f[j] by {
        vertices.remove_ensures(i);
        vertices.remove_ensures(j);
        if i < j {
            assert(f[i][i] == vertices[i + 1]);
        } else {
            assert(f[j][j] == vertices[j + 1]);
        }
    }
}

/// Two simplices are equal exactly if they have the same set of vertices.
pub proof fn lemma_equal_by_vertex_set(s: Simplex, t: Simplex)
    requires
        s.wf(),
        t.wf(),
    ensures
        s@ == t@ <==> s@.to_set() == t@.to_set(),
{
    if s@.to_set() == t@.to_set() {
        lemma_ascending_is_canonical(s@, t@);
    }
}

/// A vertex list that is no simplex: it is empty or names a vertex twice.
#[derive(Debug)]
pub struct DegenerateSimplex;

/// A simplex: a nonempty set of vertices, kept in ascending order.
#[derive(Debug)]
pub struct Simplex {
    vertices: Vec<usize>,
}

impl View for Simplex {
    type V = Seq<usize>;

    /// The vertices in ascending order.
    closed spec fn view(&self) -> Seq<usize> {
        self.vertices@
    }
}

impl Simplex {
    /// There is a vertex, and the vertices are in strictly ascending order.
    #[verifier::type_invariant]
    pub open spec fn wf(&self) -> bool {
        self@.len() > 0 && strictly_ascending(self@)
    }

    /// The faces of the simplex, in the order in which `boundary` yields them.
    pub open spec fn faces(&self) -> Seq<Seq<usize>> {
        faces_of(self@)
    }

    /// The simplex on the given vertices. An empty list and a list that names
    /// a vertex twice are rejected.
    pub fn construct(vertices: Vec<usize>) -> (r: Result<Simplex, DegenerateSimplex>)
        ensures
            r is Ok <==> vertices@.len() > 0 && vertices@.no_duplicates(),
            r matches Ok(s) ==> s.wf() && s@.len() == vertices@.len() && s@.to_set()
                == vertices@.to_set(),
    {
        if vertices.len() == 0 {
            return Err(DegenerateSimplex);
        }
        let mut sorted: Vec<usize> = Vec::new();
        let mut n: usize = 0;
        while n < vertices.len()
            invariant
                0 <= n <= vertices.len(),
                sorted@.len() == n,
                strictly_ascending(sorted@),
                forall|x: usize| sorted@.contains(x) <==> among(vertices@, n as int, x),
                forall|i: int, j: int| 0 <= i < j < n ==> vertices@[i] != vertices@[j],
            decreases vertices.len() - n,
        {
            let x = vertices[n];
            let ghost before = sorted@;
            let inserted = insert_ascending(&mut sorted, x);
            if !inserted {
                return Err(DegenerateSimplex);
            }
            proof {
                assert forall|y: usize| sorted@.contains(y) <==> among(
                    vertices@,
                    n + 1,
                    y,
                ) by {
                    assert(sorted@.to_set().contains(y) <==> before.to_set().insert(x).contains(
                        y,
                    ));
                    lemma_among_step(vertices@, n as int, y);
                }
            }
            n = n + 1;
        }
        let s = Simplex { vertices: sorted };
        proof {
            assert forall|y: usize| s@.to_set().contains(y) <==> vertices@.to_set().contains(
                y,
            ) by {
                lemma_among_all(vertices@, y);
            }
        }
        Ok(s)
    }

    /// The number of vertices less one.
    pub fn dimension(&self) -> (d: usize)
        ensures
            d == self@.len() - 1,
    {
        proof {
            use_type_invariant(self);
        }
        self.vertices.len() - 1
    }

    /// The vertices in ascending order.
    pub fn vertices(&self) -> (v: &[usize])
        ensures
            v@ == self@,
    {
        self.vertices.as_slice()
    }

    /// The faces of the simplex, one after the other: first the one without
    /// the smallest vertex, last the one without the largest.
    pub fn boundary(&self) -> (it: BoundaryIter<'_>)
        ensures
            it.pending() == self.faces(),
    {
        proof {
            use_type_invariant(self);
        }
        BoundaryIter { vertices: self.vertices.as_slice(), index: 0 }
    }
}

impl PartialEq for Simplex {
    /// Two simplices are equal when they have the same vertices.
    fn eq(&self, other: &Simplex) -> (r: bool) {
        let n = self.vertices.len();
        if n != other.vertices.len() {
            return false;
        }
        let mut k: usize = 0;
        while k < n
            invariant
                0 <= k <= n,
                n == self.vertices@.len(),
                n == other.vertices@.len(),
                forall|i: int| 0 <= i < k ==> self.vertices@[i] == other.vertices@[i],
            decreases n - k,
        {
            if self.vertices[k] != other.vertices[k] {
                return false;
            }
            k = k + 1;
        }
        assert(self.vertices@ =~= other.vertices@);
        true
    }
}

impl vstd::std_specs::cmp::PartialEqSpecImpl for Simplex {
    open spec fn obeys_eq_spec() -> bool {
        true
    }

    open spec fn eq_spec(&self, other: &Simplex) -> bool {
        self@ == other@
    }
}

/// The faces of one simplex, handed out one at a time.
pub struct BoundaryIter<'a> {
    vertices: &'a [usize],
    index: usize,
}

impl<'a> BoundaryIter<'a> {
    /// The vertices are those of a simplex, and the next position lies within
    /// its faces.
    #[verifier::type_invariant]
    spec fn wf(&self) -> bool {
        &&& self.vertices@.len() > 0
        &&& strictly_ascending(self.vertices@)
        &&& self.index <= faces_of(self.vertices@).len()
    }

    /// The faces that are still to come, in order.
    pub closed spec fn pending(&self) -> Seq<Seq<usize>> {
        faces_of(self.vertices@).skip(self.index as int)
    }

    /// The next face, or `None` when all have been handed out.
    pub fn next(&mut self) -> (r: Option<Simplex>)
        ensures
            old(self).pending().len() == 0 ==> {
                &&& r is None
                &&& final(self).pending() == old(self).pending()
            },
            old(self).pending().len() > 0 ==> {
                &&& r matches Some(s) && s@ == old(self).pending()[0]
                &&& final(self).pending() == old(self).pending().skip(1)
            },
    {
        proof {
            use_type_invariant(&*self);
        }
        let n = self.vertices.len();
        if n == 1 || self.index == n {
            return None;
        }
        let ghost all = self.vertices@;
        let skipped = self.index;
        let mut face: Vec<usize> = Vec::new();
        let mut k: usize = 0;
        while k < n
            invariant
                0 <= k <= n,
                n == all.len(),
                all == self.vertices@,
                skipped < n,
                face@ == if k <= skipped {
                    all.subrange(0, k as int)
                } else {
                    all.subrange(0, skipped as int) + all.subrange(skipped + 1, k as int)
                },
            decreases n - k,
        {
            if k != skipped {
                face.push(self.vertices[k]);
            }
            k = k + 1;
            assert(face@ =~= if k <= skipped {
                all.subrange(0, k as int)
            } else {
                all.subrange(0, skipped as int) + all.subrange(skipped + 1, k as int)
            });
        }
        proof {
            all.remove_ensures(skipped as int);
            lemma_faces_ascending_and_distinct(all);
        }
        self.index = self.index + 1;
        Some(Simplex { vertices: face })
    }
}

} // verus!
