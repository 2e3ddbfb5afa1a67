//! A complex built up one simplex at a time, faces before cofaces.
//!
//! The complex is modelled by the sequence of its simplices in filtration
//! order, each given by its vertices in ascending order. The position of a
//! simplex in that sequence is its column index.

use crate::order::strictly_ascending;
use crate::simplex::{faces_of, Simplex};
use crate::z2vector::{Z2Boundary, Z2Vector, Z2VectorRaw};
use vstd::prelude::*;

verus! {

/// `i` is the first position at which `simplex` stands in `complex`.
pub open spec fn is_position_of(complex: Seq<Seq<usize>>, simplex: Seq<usize>, i: int) -> bool {
    &&& 0 <= i < complex.len()
    &&& complex[i] == simplex
    &&& forall|k: int| 0 <= k < i ==> complex[k] != simplex
}

/// Every face of the simplex with vertices `vertices` stands in `complex`.
pub open spec fn holds_faces_of(complex: Seq<Seq<usize>>, vertices: Seq<usize>) -> bool {
    forall|f: int|
        0 <= f < faces_of(vertices).len() ==> complex.contains(#[trigger] faces_of(vertices)[f])
}

/// The positions in `complex` of the faces of the simplex with vertices
/// `vertices`.
pub open spec fn face_positions(complex: Seq<Seq<usize>>, vertices: Seq<usize>) -> Set<usize> {
    Set::new(
        |i: usize|
            exists|f: int|
                0 <= f < faces_of(vertices).len() && is_position_of(
                    complex,
                    #[trigger] faces_of(vertices)[f],
                    i as int,
                ),
    )
}

/// Each entry of `complex` is a simplex, and each of its faces stands at an
/// earlier position.
pub open spec fn is_filtration(complex: Seq<Seq<usize>>) -> bool {
    forall|p: int|
        0 <= p < complex.len() ==> {
            &&& (#[trigger] complex[p]).len() > 0
            &&& strictly_ascending(complex[p])
            &&& holds_faces_of(complex.take(p), complex[p])
        }
}

/// `columns` is the boundary matrix of `complex`: column `j` holds the
/// positions of the faces of the simplex at position `j`.
pub open spec fn is_boundary_matrix_of(
    columns: Seq<Set<usize>>,
    complex: Seq<Seq<usize>>,
) -> bool {
    &&& columns.len() == complex.len()
    &&& forall|j: int|
        0 <= j < columns.len() ==> #[trigger] columns[j] == face_positions(
            complex.take(j),
            complex[j],
        )
}

/// A matrix stays the boundary matrix of the complex when the column that an
/// insertion into the complex returns is appended to it.
pub proof fn lemma_push_keeps_alignment(
    columns: Seq<Set<usize>>,
    complex: Seq<Seq<usize>>,
    vertices: Seq<usize>,
)
    requires
        is_boundary_matrix_of(columns, complex),
    ensures
        is_boundary_matrix_of(
            columns.push(face_positions(complex, vertices)),
            complex.push(vertices),
        ),
{
    let after = complex.push(vertices);
    assert forall|j: int| 0 <= j < columns.len() + 1 implies #[trigger] columns.push(
        face_positions(complex, vertices),
    )[j] == face_positions(after.take(j), after[j]) by {
        if j < columns.len() {
            assert(after.take(j) =~= complex.take(j));
        } else {
            assert(after.take(j) =~= complex);
        }
    }
}

/// Every entry of a column of a boundary matrix is smaller than the index of
/// the column: faces come before cofaces.
pub proof fn lemma_boundary_entries_precede(
    columns: Seq<Set<usize>>,
    complex: Seq<Seq<usize>>,
    j: int,
)
    requires
        is_boundary_matrix_of(columns, complex),
        0 <= j < columns.len(),
    ensures
        forall|i: usize| columns[j].contains(i) ==> i < j,
{
}

/// The simplex that was to be inserted has a face that the complex lacks.
#[derive(Debug)]
pub struct FilterError;

/// The simplices of a complex in filtration order.
pub struct FilteredComplex {
    simplices: Vec<Simplex>,
}

impl View for FilteredComplex {
    type V = Seq<Seq<usize>>;

    /// The vertex sequences of the simplices, in filtration order.
    closed spec fn view(&self) -> Seq<Seq<usize>> {
        self.simplices@.map_values(|s: Simplex| s@)
    }
}

impl FilteredComplex {
    /// The simplices form a filtration.
    #[verifier::type_invariant]
    pub open spec fn wf(&self) -> bool {
        is_filtration(self@)
    }

    /// The complex without simplices.
    pub fn new() -> (c: FilteredComplex)
        ensures
            c@ == Seq::<Seq<usize>>::empty(),
    {
        FilteredComplex { simplices: Vec::new() }
    }

    /// Appends a simplex whose faces are known to stand in the complex.
    pub fn push_unchecked(&mut self, simplex: Simplex)
        requires
            holds_faces_of(old(self)@, simplex@),
        ensures
            final(self)@ == old(self)@.push(simplex@),
    {
        proof {
            use_type_invariant(&*self);
            use_type_invariant(&simplex);
            lemma_push_keeps_filtration(self@, simplex@);
        }
        self.append(simplex);
    }

    /// Appends a simplex with which the complex stays a filtration.
    fn append(&mut self, simplex: Simplex)
        requires
            is_filtration(old(self)@.push(simplex@)),
        ensures
            final(self)@ == old(self)@.push(simplex@),
    {
        let ghost before = self@;
        // The vector is grown outside the complex, which is a filtration
        // whenever it can be seen.
        let mut simplices: Vec<Simplex> = Vec::new();
        core::mem::swap(&mut self.simplices, &mut simplices);
        simplices.push(simplex);
        assert(simplices@.map_values(|s: Simplex| s@) =~= before.push(simplex@));
        core::mem::swap(&mut self.simplices, &mut simplices);
    }

    /// Appends a simplex and returns its boundary column: the positions of
    /// its faces. A simplex with a face that the complex lacks is rejected,
    /// and the complex stays as it was.
    pub fn push_raw(&mut self, simplex: Simplex) -> (r: Result<Z2VectorRaw, FilterError>)
        ensures
            r is Ok <==> holds_faces_of(old(self)@, simplex@),
            r matches Ok(column) ==> final(self)@ == old(self)@.push(simplex@) && column@
                == face_positions(old(self)@, simplex@),
            r is Err ==> final(self)@ == old(self)@,
    {
        let ghost complex = self@;
        let ghost faces = simplex.faces();
        let mut indices: Vec<usize> = Vec::new();
        let mut it = simplex.boundary();
        loop
            invariant
                self@ == complex,
                *self == *old(self),
                faces == faces_of(simplex@),
                indices@.len() <= faces.len(),
                it.pending() == faces.skip(indices@.len() as int),
                forall|f: int|
                    0 <= f < indices@.len() ==> is_position_of(
                        complex,
                        #[trigger] faces[f],
                        indices@[f] as int,
                    ),
            ensures
                indices@.len() == faces.len(),
            decreases it.pending().len(),
        {
            match it.next() {
                None => {
                    break ;
                },
                Some(face) => {
                    match self.find_index(&face) {
                        Some(index) => {
                            indices.push(index);
                        },
                        None => {
                            return Err(FilterError);
                        },
                    }
                },
            }
        }
        let column = Z2VectorRaw::from(indices);
        proof {
            use_type_invariant(&*self);
            use_type_invariant(&simplex);
            lemma_push_keeps_filtration(complex, simplex@);
            assert forall|i: usize| indices@.to_set().contains(i) <==> face_positions(
                complex,
                simplex@,
            ).contains(i) by {
                if indices@.contains(i) {
                    let f = choose|f: int| 0 <= f < indices@.len() && indices@[f] == i;
                    assert(is_position_of(complex, faces[f], i as int));
                }
            }
        }
        self.append(simplex);
        Ok(column)
    }

    /// Appends a simplex and returns its boundary column, tagged with the
    /// dimension of the simplex. A simplex with a face that the complex lacks
    /// is rejected, and the complex stays as it was.
    pub fn push(&mut self, simplex: Simplex) -> (r: Result<Z2Boundary, FilterError>)
        ensures
            r is Ok <==> holds_faces_of(old(self)@, simplex@),
            r matches Ok(column) ==> {
                &&& final(self)@ == old(self)@.push(simplex@)
                &&& column.support() == face_positions(old(self)@, simplex@)
                &&& column.tag() == simplex@.len() - 1
            },
            r is Err ==> final(self)@ == old(self)@,
    {
        let dim = simplex.dimension();
        match self.push_raw(simplex) {
            Ok(vector) => Ok(Z2Boundary::new(vector, dim)),
            Err(e) => Err(e),
        }
    }

    /// The first position at which `simplex` stands, if it stands in the
    /// complex.
    pub fn find_index(&self, simplex: &Simplex) -> (r: Option<usize>)
        ensures
            match r {
                Some(i) => is_position_of(self@, simplex@, i as int),
                None => !self@.contains(simplex@),
            },
    {
        let mut i: usize = 0;
        while i < self.simplices.len()
            invariant
                0 <= i <= self.simplices@.len(),
                forall|k: int| 0 <= k < i ==> self@[k] != simplex@,
            decreases self.simplices@.len() - i,
        {
            if self.simplices[i] == *simplex {
                return Some(i);
            }
            i = i + 1;
        }
        None
    }

    /// The number of simplices.
    pub fn len(&self) -> (n: usize)
        ensures
            n == self@.len(),
    {
        self.simplices.len()
    }

    /// The simplex at position `index`, if there is one.
    pub fn get(&self, index: usize) -> (r: Option<&Simplex>)
        ensures
            match r {
                Some(s) => index < self@.len() && s@ == self@[index as int],
                None => index >= self@.len(),
            },
    {
        if index < self.simplices.len() {
            Some(&self.simplices[index])
        } else {
            None
        }
    }

    /// The simplices one after the other, in filtration order.
    pub fn iter(&self) -> (it: Iter<'_>)
        ensures
            it.pending() == self@,
    {
        Iter { simplices: self.simplices.as_slice(), index: 0 }
    }
}

/// A filtration stays one when a simplex is appended whose faces it holds.
proof fn lemma_push_keeps_filtration(complex: Seq<Seq<usize>>, vertices: Seq<usize>)
    requires
        is_filtration(complex),
        vertices.len() > 0,
        strictly_ascending(vertices),
        holds_faces_of(complex, vertices),
    ensures
        is_filtration(complex.push(vertices)),
{
    let after = complex.push(vertices);
    assert forall|p: int| 0 <= p < after.len() implies {
        &&& (#[trigger] after[p]).len() > 0
        &&& strictly_ascending(after[p])
        &&& holds_faces_of(after.take(p), after[p])
    } by {
        if p < complex.len() {
            assert(after.take(p) =~= complex.take(p));
        } else {
            assert(after.take(p) =~= complex);
        }
    }
}

/// The simplices of a complex, handed out one at a time.
pub struct Iter<'a> {
    simplices: &'a [Simplex],
    index: usize,
}

impl<'a> Iter<'a> {
    /// The next position lies within the simplices or just behind them.
    #[verifier::type_invariant]
    spec fn wf(&self) -> bool {
        self.index <= self.simplices@.len()
    }

    /// The simplices that are still to come, in order.
    pub closed spec fn pending(&self) -> Seq<Seq<usize>> {
        self.simplices@.map_values(|s: Simplex| s@).skip(self.index as int)
    }

    /// The next simplex, or `None` when all have been handed out.
    pub fn next(&mut self) -> (r: Option<&'a Simplex>)
        ensures
            old(self).pending().len() == 0 ==> {
                &&& r is None
                &&& final(self).pending() == old(self).pending()
            },
            old(self).pending().len() > 0 ==> {
                &&& r matches Some(s) && s@ == old(self).pending()[0]
                &&& final(self).pending() == old(self).pending().skip(1)
            },
    {
        proof {
            use_type_invariant(&*self);
        }
        if self.index < self.simplices.len() {
            let r = &self.simplices[self.index];
            self.index = self.index + 1;
            Some(r)
        } else {
            None
        }
    }
}

} // verus!
