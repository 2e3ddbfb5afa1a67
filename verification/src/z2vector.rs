//! Sparse column vectors over the field with two elements.
//!
//! A vector is modelled by its support, the set of row indices at which it is
//! 1. Adding two vectors takes the symmetric difference of their supports,
//! and the pivot of a vector is the largest index of its support.

use crate::order::{
    among, insert_descending, lemma_among_all, lemma_among_step, lemma_descending_is_canonical,
    lemma_push_contains, strictly_descending,
};
use vstd::prelude::*;

verus! {

/// The sum of two supports over GF(2): the indices that lie in exactly one of
/// them.
pub open spec fn symmetric_difference(a: Set<usize>, b: Set<usize>) -> Set<usize> {
    Set::new(|x: usize| a.contains(x) != b.contains(x))
}

/// `m` lies in `s` and no index of `s` is larger.
pub open spec fn is_maximum_of(s: Set<usize>, m: usize) -> bool {
    s.contains(m) && forall|x: usize| s.contains(x) ==> x <= m
}

/// The pivot of a support: its largest index, if it has one.
pub open spec fn pivot(s: Set<usize>) -> Option<usize> {
    if exists|m: usize| is_maximum_of(s, m) {
        Some(choose|m: usize| is_maximum_of(s, m))
    } else {
        None
    }
}

/// A maximum of a support is its pivot.
pub proof fn lemma_maximum_is_pivot(s: Set<usize>, m: usize)
    requires
        is_maximum_of(s, m),
    ensures
            pivot(s) == Some(m),
{
}

/// A support that holds `c` has a maximum.
proof fn lemma_inhabited_has_maximum(s: Set<usize>, c: usize)
    requires
        s.contains(c),
    ensures
        exists|m: usize| is_maximum_of(s, m),
    decreases usize::MAX - c,
{
    if forall|x: usize| s.contains(x) ==> x <= c {
        assert(is_maximum_of(s, c));
    } else {
        let y = choose|y: usize| s.contains(y) && !(y <= c);
        lemma_inhabited_has_maximum(s, y);
    }
}

/// The pivot is the maximum of a nonempty support, and an empty support has
/// none.
pub proof fn lemma_pivot_is_maximum(s: Set<usize>)
    ensures
        s == Set::<usize>::empty() <==> pivot(s) is None,
        pivot(s) matches Some(m) ==> is_maximum_of(s, m),
{
    if s =~= Set::<usize>::empty() {
        assert forall|m: usize| !is_maximum_of(s, m) by {}
    } else {
        let c = choose|c: usize| s.contains(c);
        lemma_inhabited_has_maximum(s, c);
    }
}

/// Addition is commutative: `a.add(b) == b.add(a)`.
pub proof fn lemma_add_commutative(a: Set<usize>, b: Set<usize>)
    ensures
        symmetric_difference(a, b) == symmetric_difference(b, a),
{
}

/// Every vector is its own inverse: `a.add(a) == zero()`.
pub proof fn lemma_add_self_is_zero(a: Set<usize>)
    ensures
        symmetric_difference(a, a) == Set::<usize>::empty(),
{
}

/// The zero vector is the identity of addition: `a.add(zero()) == a`.
pub proof fn lemma_add_zero(a: Set<usize>)
    ensures
        symmetric_difference(a, Set::<usize>::empty()) == a,
        symmetric_difference(Set::<usize>::empty(), a) == a,
{
}

/// Addition is associative: `a.add(b).add(c) == a.add(b.add(c))`.
pub proof fn lemma_add_associative(a: Set<usize>, b: Set<usize>, c: Set<usize>)
    ensures
        symmetric_difference(symmetric_difference(a, b), c) == symmetric_difference(
            a,
            symmetric_difference(b, c),
        ),
{
    assert(symmetric_difference(symmetric_difference(a, b), c) =~= symmetric_difference(
        a,
        symmetric_difference(b, c),
    ));
}

/// Two supports with the same pivot sum to one with a smaller pivot, or to
/// the empty support.
pub proof fn lemma_add_cancels_pivot(a: Set<usize>, b: Set<usize>, p: usize)
    requires
        pivot(a) == Some(p),
        pivot(b) == Some(p),
    ensures
        pivot(symmetric_difference(a, b)) matches Some(q) ==> q < p,
{
    lemma_pivot_is_maximum(a);
    lemma_pivot_is_maximum(b);
    lemma_pivot_is_maximum(symmetric_difference(a, b));
}

/// The first entry of a strictly descending sequence is the maximum of its
/// entries.
proof fn lemma_head_is_maximum(s: Seq<usize>)
    requires
        strictly_descending(s),
        s.len() > 0,
    ensures
        is_maximum_of(s.to_set(), s[0]),
{
    assert forall|x: usize| s.to_set().contains(x) implies x <= s[0] by {
        let i = choose|i: int| 0 <= i < s.len() && s[i] == x;
    }
}

/// A vector over GF(2): its pivot and its sum with another vector.
pub trait Z2Vector: Sized {
    /// The support of the vector: the row indices of its nonzero entries.
    spec fn support(&self) -> Set<usize>;

    /// What the vector carries besides its entries. A sum has the tag of its
    /// left operand.
    spec fn tag(&self) -> usize;

    /// The largest row index of the support, `None` for the zero vector.
    fn lowest(&self) -> (r: Option<usize>)
        ensures
            r == pivot(self.support()),
    ;

    /// The sum of the two vectors, with the tag of `self`.
    fn add(&self, right: &Self) -> (r: Self)
        ensures
            r.support() == symmetric_difference(self.support(), right.support()),
            r.tag() == self.tag(),
    ;
}

/// A column that stands for a chain of a known dimension.
pub trait Chain: Z2Vector {
    /// Whether the column is zero.
    fn is_cycle(&self) -> (b: bool)
        ensures
            b == (pivot(self.support()) is None),
    ;

    /// The dimension that the column is tagged with.
    fn chain_dim(&self) -> (d: usize)
        ensures
            d == self.tag(),
    ;
}

/// A column vector over GF(2), kept as the row indices of its nonzero entries.
#[derive(Debug)]
pub struct Z2VectorRaw {
    elements: Vec<usize>,
}

impl View for Z2VectorRaw {
    type V = Set<usize>;

    /// The support of the vector.
    closed spec fn view(&self) -> Set<usize> {
        self.elements@.to_set()
    }
}

impl Z2VectorRaw {
    /// The stored indices are in strictly descending order.
    #[verifier::type_invariant]
    spec fn wf(&self) -> bool {
        strictly_descending(self.elements@)
    }

    /// The zero vector.
    pub fn zero() -> (v: Z2VectorRaw)
        ensures
            v@ == Set::<usize>::empty(),
    {
        Z2VectorRaw { elements: Vec::new() }
    }

    /// The vector whose support holds the given indices, in whatever order
    /// and however often each is listed.
    pub fn from(indices: Vec<usize>) -> (v: Z2VectorRaw)
        ensures
            v@ == indices@.to_set(),
    {
        let mut elements: Vec<usize> = Vec::new();
        let mut n: usize = 0;
        while n < indices.len()
            invariant
                0 <= n <= indices.len(),
                strictly_descending(elements@),
                forall|x: usize| elements@.contains(x) <==> among(indices@, n as int, x),
            decreases indices.len() - n,
        {
            let x = indices[n];
            let ghost before = elements@;
            insert_descending(&mut elements, x);
            n = n + 1;
            assert forall|y: usize| elements@.contains(y) <==> among(indices@, n as int, y) by {
                assert(elements@.to_set().contains(y) <==> before.to_set().insert(x).contains(y));
                lemma_among_step(indices@, n - 1, y);
            }
        }
        let v = Z2VectorRaw { elements };
        assert(v@ =~= indices@.to_set()) by {
            assert forall|y: usize| v@.contains(y) <==> indices@.to_set().contains(y) by {
                lemma_among_all(indices@, y);
            }
        }
        v
    }

    /// The row indices of the support, from the largest to the smallest.
    pub fn indices(&self) -> (r: &[usize])
        ensures
            strictly_descending(r@),
            r@.to_set() == self@,
    {
        proof {
            use_type_invariant(self);
        }
        self.elements.as_slice()
    }
}

impl Z2Vector for Z2VectorRaw {
    open spec fn support(&self) -> Set<usize> {
        self@
    }

    /// A bare vector carries nothing besides its entries.
    open spec fn tag(&self) -> usize {
        0
    }

    fn lowest(&self) -> (r: Option<usize>) {
        proof {
            use_type_invariant(self);
            lemma_pivot_is_maximum(self@);
        }
        if self.elements.len() == 0 {
            None
        } else {
            proof {
                lemma_head_is_maximum(self.elements@);
                lemma_maximum_is_pivot(self@, self.elements@[0]);
            }
            Some(self.elements[0])
        }
    }

    /// One merge of the two descending index lists: the larger head goes to
    /// the result, and two equal heads cancel.
    fn add(&self, right: &Z2VectorRaw) -> (r: Z2VectorRaw) {
        proof {
            use_type_invariant(self);
            use_type_invariant(right);
        }
        let ghost a = self.elements@;
        let ghost b = right.elements@;
        let mut result: Vec<usize> = Vec::new();
        let mut i: usize = 0;
        let mut j: usize = 0;
        while i < self.elements.len() || j < right.elements.len()
            invariant
                a == self.elements@,
                b == right.elements@,
                0 <= i <= a.len(),
                0 <= j <= b.len(),
                strictly_descending(a),
                strictly_descending(b),
                strictly_descending(result@),
                forall|k: int, l: int|
                    0 <= k < result@.len() && i <= l < a.len() ==> result@[k] > a[l],
                forall|k: int, l: int|
                    0 <= k < result@.len() && j <= l < b.len() ==> result@[k] > b[l],
                forall|k: int, l: int| 0 <= k < i && j <= l < b.len() ==> a[k] > b[l],
                forall|k: int, l: int| 0 <= k < j && i <= l < a.len() ==> b[k] > a[l],
                forall|x: usize|
                    result@.contains(x) <==> (among(a, i as int, x) != among(b, j as int, x)),
            decreases a.len() - i + b.len() - j,
        {
            let ghost r0 = result@;
            let ghost i0 = i as int;
            let ghost j0 = j as int;
            if i < self.elements.len() && (j == right.elements.len() || self.elements[i]
                > right.elements[j]) {
                result.push(self.elements[i]);
                i = i + 1;
            } else if j < right.elements.len() && (i == self.elements.len() || right.elements[j]
                > self.elements[i]) {
                result.push(right.elements[j]);
                j = j + 1;
            } else {
                i = i + 1;
                j = j + 1;
            }
            proof {
                assert forall|x: usize|
                    result@.contains(x) <==> (among(a, i as int, x) != among(
                        b,
                        j as int,
                        x,
                    )) by {
                    lemma_among_step(a, i0, x);
                    lemma_among_step(b, j0, x);
                    lemma_push_contains(r0, x);
                }
            }
        }
        let r = Z2VectorRaw { elements: result };
        proof {
            assert forall|x: usize| r@.contains(x) <==> symmetric_difference(
                self@,
                right@,
            ).contains(x) by {
                lemma_among_all(a, x);
                lemma_among_all(b, x);
            }
        }
        r
    }
}

impl PartialEq for Z2VectorRaw {
    /// Two vectors are equal when their supports are.
    fn eq(&self, other: &Z2VectorRaw) -> (r: bool) {
        proof {
            use_type_invariant(self);
            use_type_invariant(other);
            if self@ == other@ {
                lemma_descending_is_canonical(self.elements@, other.elements@);
            }
        }
        let n = self.elements.len();
        if n != other.elements.len() {
            return false;
        }
        let mut k: usize = 0;
        while k < n
            invariant
                0 <= k <= n,
                n == self.elements@.len(),
                n == other.elements@.len(),
                self@ == other@ ==> self.elements@ == other.elements@,
                forall|i: int| 0 <= i < k ==> self.elements@[i] == other.elements@[i],
            decreases n - k,
        {
            if self.elements[k] != other.elements[k] {
                return false;
            }
            k = k + 1;
        }
        assert(self.elements@ =~= other.elements@);
        true
    }
}

impl vstd::std_specs::cmp::PartialEqSpecImpl for Z2VectorRaw {
    open spec fn obeys_eq_spec() -> bool {
        true
    }

    open spec fn eq_spec(&self, other: &Z2VectorRaw) -> bool {
        self@ == other@
    }
}

/// A boundary column: a vector together with the dimension of the chain that
/// it is the boundary of.
#[derive(Debug)]
pub struct Z2Boundary {
    vector: Z2VectorRaw,
    chain_dim: usize,
}

impl Z2Boundary {
    /// The column with the entries of `vec`, tagged with `dim`.
    pub fn new(vec: Z2VectorRaw, dim: usize) -> (b: Z2Boundary)
        ensures
            b.support() == vec@,
            b.tag() == dim,
    {
        Z2Boundary { vector: vec, chain_dim: dim }
    }

    /// The entries of the column.
    pub fn vector(&self) -> (v: &Z2VectorRaw)
        ensures
            v@ == self.support(),
    {
        &self.vector
    }
}

impl Z2Vector for Z2Boundary {
    closed spec fn support(&self) -> Set<usize> {
        self.vector@
    }

    closed spec fn tag(&self) -> usize {
        self.chain_dim
    }

    fn lowest(&self) -> (r: Option<usize>) {
        self.vector.lowest()
    }

    fn add(&self, right: &Z2Boundary) -> (r: Z2Boundary) {
        Z2Boundary { vector: self.vector.add(&right.vector), chain_dim: self.chain_dim }
    }
}

impl Chain for Z2Boundary {
    fn is_cycle(&self) -> (b: bool) {
        self.vector.lowest().is_none()
    }

    fn chain_dim(&self) -> (d: usize) {
        self.chain_dim
    }
}

} // verus!
