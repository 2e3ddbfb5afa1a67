//! Persistent homology of a filtered simplicial complex over the field with
//! two elements.
//!
//! Simplices enter a [`filteredcomplex::FilteredComplex`] in filtration order;
//! each insertion yields the boundary column of the new simplex. The columns
//! are gathered in a [`z2reduction::Z2BoundaryMatrix`], which
//! [`z2reduction::reduce`] brings into reduced form, and
//! [`z2reduction::pairing`] reads the persistence pairs off the result.
//!
//! Every function states what it computes over a mathematical model of its
//! arguments: a simplex is the ascending sequence of its vertices, a column
//! vector the set of its row indices, a matrix the sequence of its columns.
//! [`stability`] shows that the pairs depend on the boundary matrix alone and
//! not on the course that its reduction took.

pub mod filteredcomplex;
pub mod order;
pub mod simplex;
pub mod stability;
pub mod z2reduction;
pub mod z2vector;
