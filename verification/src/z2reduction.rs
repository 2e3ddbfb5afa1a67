//! Boundary matrices, their reduction and the persistence pairs of the
//! reduced matrix.
//!
//! A matrix is modelled by the sequence of its columns, a column by its
//! support. Reduction and pairing are stated over the supports and over the
//! pivots of the columns.

use crate::z2vector::{lemma_add_cancels_pivot, pivot, symmetric_difference, Chain, Z2Vector};
use vstd::prelude::*;

verus! {

/// The supports of the columns, column by column.
pub open spec fn supports<C: Z2Vector>(columns: Seq<C>) -> Seq<Set<usize>> {
    columns.map_values(|c: C| c.support())
}

/// The tags of the columns, column by column.
pub open spec fn tags<C: Z2Vector>(columns: Seq<C>) -> Seq<usize> {
    columns.map_values(|c: C| c.tag())
}

/// The pivots of the columns, column by column.
pub open spec fn pivot_table(columns: Seq<Set<usize>>) -> Seq<Option<usize>> {
    columns.map_values(|s: Set<usize>| pivot(s))
}

/// No two columns have the same pivot.
pub open spec fn pivots_distinct(columns: Seq<Set<usize>>) -> bool {
    forall|j: int, k: int|
        0 <= j < columns.len() && 0 <= k < columns.len() && j != k && pivot(columns[j]) is Some
            ==> pivot(columns[j]) != pivot(columns[k])
}

/// Column `k` is the first of `columns` with pivot `p`.
pub open spec fn is_first_with_pivot(columns: Seq<Set<usize>>, p: usize, k: int) -> bool {
    &&& 0 <= k < columns.len()
    &&& pivot(columns[k]) == Some(p)
    &&& forall|i: int| 0 <= i < k ==> pivot(columns[i]) != Some(p)
}

/// One more than the pivot, and 0 for a column without one: what every step
/// of the reduction of a column brings down.
pub open spec fn pivot_rank(column: Set<usize>) -> nat {
    match pivot(column) {
        Some(p) => (p + 1) as nat,
        None => 0,
    }
}

/// What `column` becomes when it is reduced against the columns `reduced`
/// that stand before it: as long as one of them has the pivot of the column,
/// the first such is added to it.
pub open spec fn reduce_column(reduced: Seq<Set<usize>>, column: Set<usize>) -> Set<usize>
    decreases pivot_rank(column),
    via reduce_column_decreases
{
    match pivot(column) {
        Some(p) => {
            if exists|k: int| is_first_with_pivot(reduced, p, k) {
                let k = choose|k: int| is_first_with_pivot(reduced, p, k);
                reduce_column(reduced, symmetric_difference(column, reduced[k]))
            } else {
                column
            }
        },
        None => column,
    }
}

#[via_fn]
proof fn reduce_column_decreases(reduced: Seq<Set<usize>>, column: Set<usize>) {
    if let Some(p) = pivot(column) {
        if exists|k: int| is_first_with_pivot(reduced, p, k) {
            let k = choose|k: int| is_first_with_pivot(reduced, p, k);
            lemma_add_cancels_pivot(column, reduced[k], p);
        }
    }
}

/// The result of the standard reduction: the columns are taken from the left
/// to the right, and each is reduced against those before it.
pub open spec fn standard_reduction(columns: Seq<Set<usize>>) -> Seq<Set<usize>>
    decreases columns.len(),
{
    if columns.len() == 0 {
        Seq::empty()
    } else {
        let reduced = standard_reduction(columns.drop_last());
        reduced.push(reduce_column(reduced, columns.last()))
    }
}

/// A matrix over GF(2) that grows column by column.
#[derive(Debug)]
pub struct Z2BoundaryMatrix<C> where C: Z2Vector {
    columns: Vec<C>,
}

impl<C> View for Z2BoundaryMatrix<C> where C: Z2Vector {
    type V = Seq<C>;

    /// The columns from the left to the right.
    closed spec fn view(&self) -> Seq<C> {
        self.columns@
    }
}

impl<C> Z2BoundaryMatrix<C> where C: Z2Vector {
    /// The matrix without columns.
    pub fn new() -> (m: Z2BoundaryMatrix<C>)
        ensures
            m@ == Seq::<C>::empty(),
    {
        Z2BoundaryMatrix { columns: Vec::new() }
    }

    /// The number of columns.
    pub fn ncols(&self) -> (n: usize)
        ensures
            n == self@.len(),
    {
        self.columns.len()
    }

    /// Appends a column at the right.
    pub fn push(&mut self, col: C)
        ensures
            final(self)@ == old(self)@.push(col),
    {
        self.columns.push(col);
    }

    /// Column `index`, if there is one.
    pub fn get_column(&self, index: usize) -> (r: Option<&C>)
        ensures
            match r {
                Some(c) => index < self@.len() && *c == self@[index as int],
                None => index >= self@.len(),
            },
    {
        if index < self.columns.len() {
            Some(&self.columns[index])
        } else {
            None
        }
    }

    /// The pivot of column `index`.
    pub fn lowest(&self, index: usize) -> (r: Option<usize>)
        requires
            index < self@.len(),
        ensures
            r == pivot(self@[index as int].support()),
    {
        self.columns[index].lowest()
    }
}

/// A matrix over GF(2) as the reduction leaves it: no two of its columns have
/// the same pivot.
#[derive(Debug)]
pub struct Z2ReducedMatrix<C> where C: Z2Vector {
    columns: Vec<C>,
}

impl<C> View for Z2ReducedMatrix<C> where C: Z2Vector {
    type V = Seq<C>;

    /// The columns from the left to the right.
    closed spec fn view(&self) -> Seq<C> {
        self.columns@
    }
}

impl<C> Z2ReducedMatrix<C> where C: Z2Vector {
    /// No two columns have the same pivot.
    #[verifier::type_invariant]
    pub open spec fn is_reduced(&self) -> bool {
        pivots_distinct(supports(self@))
    }

    /// The pivots of the columns, column by column.
    pub open spec fn pivots(&self) -> Seq<Option<usize>> {
        pivot_table(supports(self@))
    }

    /// The number of columns.
    pub fn ncols(&self) -> (n: usize)
        ensures
            n == self@.len(),
    {
        self.columns.len()
    }

    /// Column `index`, if there is one.
    pub fn get_column(&self, index: usize) -> (r: Option<&C>)
        ensures
            match r {
                Some(c) => index < self@.len() && *c == self@[index as int],
                None => index >= self@.len(),
            },
    {
        if index < self.columns.len() {
            Some(&self.columns[index])
        } else {
            None
        }
    }

    /// The pivot of column `index`; `None` also where there is no such
    /// column.
    pub fn lowest(&self, index: usize) -> (r: Option<usize>)
        ensures
            r == if index < self@.len() {
                self.pivots()[index as int]
            } else {
                None
            },
    {
        if index < self.columns.len() {
            self.columns[index].lowest()
        } else {
            None
        }
    }

    /// Adds column `j1` of `columns` to column `j2`, which stands to the right
    /// of it.
    fn add_left_to_right(columns: &mut Vec<C>, j1: usize, j2: usize)
        requires
            j1 < j2 < old(columns)@.len(),
        ensures
            final(columns)@.len() == old(columns)@.len(),
            forall|i: int|
                0 <= i < old(columns)@.len() && i != j2 ==> final(columns)@[i] == old(columns)@[i],
            final(columns)@[j2 as int].support() == symmetric_difference(
                old(columns)@[j2 as int].support(),
                old(columns)@[j1 as int].support(),
            ),
            final(columns)@[j2 as int].tag() == old(columns)@[j2 as int].tag(),
    {
        let sum = columns[j2].add(&columns[j1]);
        columns[j2] = sum;
    }

    /// The first of `columns` to the left of column `index` that has the same
    /// pivot as it.
    fn position_of_same_lowest(columns: &Vec<C>, index: usize) -> (r: Option<usize>)
        requires
            index < columns@.len(),
        ensures
            match r {
                Some(k) => pivot(columns@[index as int].support()) matches Some(p)
                    && is_first_with_pivot(supports(columns@).take(index as int), p, k as int),
                None => pivot(columns@[index as int].support()) matches Some(p) ==> forall|k: int|
                    !is_first_with_pivot(supports(columns@).take(index as int), p, k),
            },
    {
        if let Some(low_i) = columns[index].lowest() {
            let ghost before = supports(columns@).take(index as int);
            let mut j: usize = 0;
            while j < index
                invariant
                    0 <= j <= index < columns@.len(),
                    before == supports(columns@).take(index as int),
                    pivot(columns@[index as int].support()) == Some(low_i),
                    forall|i: int| 0 <= i < j ==> pivot(before[i]) != Some(low_i),
                decreases index - j,
            {
                assert(before[j as int] == columns@[j as int].support());
                match columns[j].lowest() {
                    Some(low_j) => {
                        if low_i == low_j {
                            return Some(j);
                        }
                    },
                    None => {},
                }
                j = j + 1;
            }
        }
        None
    }

    /// The first column from column `low` on that has the pivot `low`.
    fn position_by_lowest(&self, low: usize) -> (r: Option<usize>)
        ensures
            match r {
                Some(k) => low <= k < self@.len() && self.pivots()[k as int] == Some(low)
                    && forall|i: int| low <= i < k ==> self.pivots()[i] != Some(low),
                None => forall|i: int| low <= i < self@.len() ==> self.pivots()[i] != Some(low),
            },
    {
        let mut k: usize = low;
        while k < self.ncols()
            invariant
                low <= k,
                forall|i: int| low <= i < k && i < self@.len() ==> self.pivots()[i] != Some(low),
            decreases self@.len() - k,
        {
            match self.lowest(k) {
                Some(low_k) => {
                    if low_k == low {
                        return Some(k);
                    }
                },
                None => {},
            }
            k = k + 1;
        }
        None
    }
}

/// Reduces a boundary matrix by the standard algorithm. In the result no two
/// columns have the same pivot, and each column has kept its tag.
pub fn reduce<C: Z2Vector>(boundary_matrix: Z2BoundaryMatrix<C>) -> (r: Z2ReducedMatrix<C>)
    ensures
        r@.len() == boundary_matrix@.len(),
        supports(r@) == standard_reduction(supports(boundary_matrix@)),
        tags(r@) == tags(boundary_matrix@),
        r.is_reduced(),
{
    let ghost unreduced = boundary_matrix@;
    let mut columns = boundary_matrix.columns;
    let n = columns.len();
    let mut j: usize = 0;
    while j < n
        invariant
            0 <= j <= n,
            n == unreduced.len(),
            columns@.len() == n,
            supports(columns@).take(j as int) == standard_reduction(
                supports(unreduced).take(j as int),
            ),
            forall|i: int| j <= i < n ==> columns@[i] == unreduced[i],
            tags(columns@) == tags(unreduced),
        decreases n - j,
    {
        let ghost reduced = supports(columns@).take(j as int);
        let ghost start = columns@;
        loop
            invariant
                j < n,
                columns@.len() == n,
                supports(columns@).take(j as int) == reduced,
                forall|i: int| 0 <= i < n && i != j ==> columns@[i] == start[i],
                columns@[j as int].tag() == start[j as int].tag(),
                reduce_column(reduced, columns@[j as int].support()) == reduce_column(
                    reduced,
                    start[j as int].support(),
                ),
            ensures
                columns@.len() == n,
                supports(columns@).take(j as int) == reduced,
                forall|i: int| 0 <= i < n && i != j ==> columns@[i] == start[i],
                columns@[j as int].tag() == start[j as int].tag(),
                columns@[j as int].support() == reduce_column(reduced, start[j as int].support()),
            decreases pivot_rank(columns@[j as int].support()),
        {
            let ghost column = columns@[j as int].support();
            match Z2ReducedMatrix::position_of_same_lowest(&columns, j) {
                Some(k) => {
                    proof {
                        let p = pivot(column)->0;
                        lemma_first_with_pivot_unique(reduced, p, k as int);
                        lemma_add_cancels_pivot(column, reduced[k as int], p);
                    }
                    Z2ReducedMatrix::add_left_to_right(&mut columns, k, j);
                },
                None => {
                    break ;
                },
            }
        }
        assert(supports(unreduced).take(j + 1).drop_last() =~= supports(unreduced).take(j as int));
        j = j + 1;
    }
    proof {
        assert(supports(unreduced).take(n as int) =~= supports(unreduced));
        assert(supports(columns@).take(n as int) =~= supports(columns@));
        lemma_standard_reduction_is_reduced(supports(unreduced));
    }
    Z2ReducedMatrix { columns }
}

/// A persistence pair: the column at which a class is born and, unless the
/// class is essential, the column at which it dies.
#[derive(Debug)]
pub struct Persistence {
    pub birth: usize,
    pub death: Option<usize>,
}

/// A persistence pair together with the dimension of the class.
#[derive(Debug)]
pub struct PersistenceWithDimension {
    pub dimension: usize,
    pub birth: usize,
    pub death: Option<usize>,
}

/// Column `k` is the first to the right of column `birth` whose pivot is
/// `birth`.
pub open spec fn is_death_of(pivots: Seq<Option<usize>>, birth: int, k: int) -> bool {
    &&& birth < k < pivots.len()
    &&& pivots[k] == Some(birth as usize)
    &&& forall|i: int| birth < i < k ==> pivots[i] != Some(birth as usize)
}

/// The column at which the class born at column `birth` dies, if it dies.
pub open spec fn death_of(pivots: Seq<Option<usize>>, birth: int) -> Option<usize> {
    if exists|k: int| is_death_of(pivots, birth, k) {
        Some((choose|k: int| is_death_of(pivots, birth, k)) as usize)
    } else {
        None
    }
}

/// The persistence pairs of the columns from column `from` on, by ascending
/// birth: one pair for each column without a pivot.
pub open spec fn pairs_from(pivots: Seq<Option<usize>>, from: int) -> Seq<Persistence>
    decreases pivots.len() - from,
{
    if from < 0 || from >= pivots.len() {
        Seq::empty()
    } else if pivots[from] is None {
        seq![Persistence { birth: from as usize, death: death_of(pivots, from) }] + pairs_from(
            pivots,
            from + 1,
        )
    } else {
        pairs_from(pivots, from + 1)
    }
}

/// The persistence pairs of a matrix with the given pivots, by ascending
/// birth.
pub open spec fn persistence_pairs(pivots: Seq<Option<usize>>) -> Seq<Persistence> {
    pairs_from(pivots, 0)
}

/// The pair `pair` together with the tag of its birth column.
pub open spec fn with_dimension(tags: Seq<usize>, pair: Persistence) -> PersistenceWithDimension {
    PersistenceWithDimension {
        dimension: tags[pair.birth as int],
        birth: pair.birth,
        death: pair.death,
    }
}

/// The persistence pairs of a matrix with the given pivots, each with the
/// tag of its birth column as its dimension.
pub open spec fn persistence_pairs_with_dimension(
    pivots: Seq<Option<usize>>,
    tags: Seq<usize>,
) -> Seq<PersistenceWithDimension> {
    persistence_pairs(pivots).map_values(|pair: Persistence| with_dimension(tags, pair))
}

/// The pairs from column `from` on are the columns without a pivot from
/// there on, by ascending birth, each with the column at which it dies.
pub proof fn lemma_pairs_are_births(pivots: Seq<Option<usize>>, from: int)
    requires
        0 <= from,
        pivots.len() <= usize::MAX,
    ensures
        forall|i: int|
            0 <= i < pairs_from(pivots, from).len() ==> {
                let pair = #[trigger] pairs_from(pivots, from)[i];
                &&& from <= pair.birth < pivots.len()
                &&& pivots[pair.birth as int] is None
                &&& pair.death == death_of(pivots, pair.birth as int)
            },
        forall|i: int, j: int|
            0 <= i < j < pairs_from(pivots, from).len() ==> pairs_from(pivots, from)[i].birth
                < pairs_from(pivots, from)[j].birth,
        forall|b: int|
            from <= b < pivots.len() && pivots[b] is None ==> exists|i: int|
                0 <= i < pairs_from(pivots, from).len() && (#[trigger] pairs_from(
                    pivots,
                    from,
                )[i]).birth == b,
    decreases pivots.len() - from,
{
    if from < pivots.len() {
        lemma_pairs_are_births(pivots, from + 1);
        let pairs = pairs_from(pivots, from);
        let rest = pairs_from(pivots, from + 1);
        // Where column `from` has no pivot its pair comes first, and every
        // other pair stands one place further on than in `rest`.
        let shift: int = if pivots[from] is None {
            1
        } else {
            0
        };
        assert forall|i: int| shift <= i < pairs.len() implies pairs[i] == rest[i - shift] by {}
        assert forall|b: int| from <= b < pivots.len() && pivots[b] is None implies exists|i: int|
            0 <= i < pairs.len() && (#[trigger] pairs[i]).birth == b by {
            if b == from {
                assert(pairs[0].birth == b);
            } else {
                let i = choose|i: int| 0 <= i < rest.len() && (#[trigger] rest[i]).birth == b;
                assert(pairs[i + shift].birth == b);
            }
        }
    }
}

/// The persistence pairs of a reduced matrix, a pair at a time.
pub fn pairing<'a, C: Chain>(reduced_matrix: &'a Z2ReducedMatrix<C>) -> (it: Pairing<'a, C>)
    ensures
        it.matrix() == reduced_matrix,
        it.pending() == persistence_pairs(reduced_matrix.pivots()),
{
    Pairing { matrix: reduced_matrix, index: 0 }
}

/// The persistence pairs of a matrix, handed out by ascending birth.
pub struct Pairing<'a, C> where C: Chain {
    matrix: &'a Z2ReducedMatrix<C>,
    index: usize,
}

impl<'a, C> Pairing<'a, C> where C: Chain {
    /// The next column lies within the matrix or just behind it.
    #[verifier::type_invariant]
    spec fn wf(&self) -> bool {
        self.index <= self.matrix@.len()
    }

    /// The matrix whose pairs are handed out.
    pub closed spec fn matrix(&self) -> &Z2ReducedMatrix<C> {
        self.matrix
    }

    /// The pairs that are still to come, by ascending birth.
    pub closed spec fn pending(&self) -> Seq<Persistence> {
        pairs_from(self.matrix.pivots(), self.index as int)
    }

    /// The next pair, or `None` when all have been handed out: the next
    /// column without a pivot, with the first column to the right of it whose
    /// pivot it is.
    pub fn next(&mut self) -> (r: Option<Persistence>)
        ensures
            final(self).matrix() == old(self).matrix(),
            old(self).pending().len() == 0 ==> {
                &&& r is None
                &&& final(self).pending() == old(self).pending()
            },
            old(self).pending().len() > 0 ==> {
                &&& r == Some(old(self).pending()[0])
                &&& final(self).pending() == old(self).pending().skip(1)
            },
            r matches Some(pair) ==> pair.birth < old(self).matrix()@.len(),
    {
        proof {
            use_type_invariant(&*self);
        }
        let ghost pivots = self.matrix.pivots();
        let ghost before = self.pending();
        assert(self.matrix@.len() == self.matrix.columns.len());
        loop
            invariant
                self.matrix@.len() <= usize::MAX,
                self.matrix == old(self).matrix,
                pivots == self.matrix.pivots(),
                pivots.len() == self.matrix@.len(),
                self.index <= self.matrix@.len(),
                pairs_from(pivots, self.index as int) == before,
                before == old(self).pending(),
            decreases self.matrix@.len() - self.index,
        {
            match self.matrix.get_column(self.index) {
                None => {
                    return None;
                },
                Some(chain) => {
                    let j = self.index;
                    if chain.is_cycle() {
                        self.index = self.index + 1;
                        let death = self.matrix.position_by_lowest(j);
                        proof {
                            // The column itself has no pivot, so the first
                            // column from it on with pivot `j` is the first
                            // to the right of it.
                            match death {
                                Some(k) => {
                                    assert(is_death_of(pivots, j as int, k as int));
                                },
                                None => {
                                    assert forall|c: int| !is_death_of(pivots, j as int, c) by {}
                                },
                            }
                        }
                        return Some(Persistence { birth: j, death });
                    }
                    self.index = self.index + 1;
                },
            }
        }
    }
}

/// The persistence pairs of a reduced matrix with their dimensions, a pair
/// at a time.
pub fn pairing_with_dimension<'a, C: Chain>(
    reduced_matrix: &'a Z2ReducedMatrix<C>,
) -> (it: PairingWithDimension<'a, C>)
    ensures
        it.pending() == persistence_pairs_with_dimension(
            reduced_matrix.pivots(),
            tags(reduced_matrix@),
        ),
{
    PairingWithDimension { parent: pairing(reduced_matrix) }
}

/// The persistence pairs of a matrix with their dimensions, handed out by
/// ascending birth.
pub struct PairingWithDimension<'a, C> where C: Chain {
    parent: Pairing<'a, C>,
}

impl<'a, C> PairingWithDimension<'a, C> where C: Chain {
    /// The pairs that are still to come, by ascending birth.
    pub closed spec fn pending(&self) -> Seq<PersistenceWithDimension> {
        self.parent.pending().map_values(
            |pair: Persistence| with_dimension(tags(self.parent.matrix()@), pair),
        )
    }

    /// The next pair, or `None` when all have been handed out. Its dimension
    /// is the one that its birth column is tagged with.
    pub fn next(&mut self) -> (r: Option<PersistenceWithDimension>)
        ensures
            old(self).pending().len() == 0 ==> {
                &&& r is None
                &&& final(self).pending() == old(self).pending()
            },
            old(self).pending().len() > 0 ==> {
                &&& r == Some(old(self).pending()[0])
                &&& final(self).pending() == old(self).pending().skip(1)
            },
    {
        match self.parent.next() {
            None => None,
            Some(pair) => {
                let dimension = self.parent.matrix.columns[pair.birth].chain_dim();
                Some(PersistenceWithDimension { dimension, birth: pair.birth, death: pair.death })
            },
        }
    }
}

/// There is one first column with a given pivot at most.
proof fn lemma_first_with_pivot_unique(columns: Seq<Set<usize>>, p: usize, k: int)
    requires
        is_first_with_pivot(columns, p, k),
    ensures
        (choose|i: int| is_first_with_pivot(columns, p, i)) == k,
{
}

/// Where some column has the pivot `p`, there is a first that has it.
proof fn lemma_first_with_pivot_exists(columns: Seq<Set<usize>>, p: usize, k: int)
    requires
        0 <= k < columns.len(),
        pivot(columns[k]) == Some(p),
    ensures
        exists|i: int| is_first_with_pivot(columns, p, i),
    decreases k,
{
    if forall|i: int| 0 <= i < k ==> pivot(columns[i]) != Some(p) {
        assert(is_first_with_pivot(columns, p, k));
    } else {
        let i = choose|i: int| 0 <= i < k && pivot(columns[i]) == Some(p);
        lemma_first_with_pivot_exists(columns, p, i);
    }
}

/// A reduced column has no pivot, or one that no column before it has.
pub proof fn lemma_reduce_column_pivot(reduced: Seq<Set<usize>>, column: Set<usize>)
    ensures
        pivot(reduce_column(reduced, column)) matches Some(p) ==> forall|k: int|
            0 <= k < reduced.len() ==> pivot(reduced[k]) != Some(p),
    decreases pivot_rank(column),
{
    if let Some(p) = pivot(column) {
        if exists|k: int| is_first_with_pivot(reduced, p, k) {
            let k = choose|k: int| is_first_with_pivot(reduced, p, k);
            lemma_add_cancels_pivot(column, reduced[k], p);
            lemma_reduce_column_pivot(reduced, symmetric_difference(column, reduced[k]));
        } else {
            assert forall|k: int| 0 <= k < reduced.len() implies pivot(reduced[k]) != Some(p) by {
                if pivot(reduced[k]) == Some(p) {
                    lemma_first_with_pivot_exists(reduced, p, k);
                }
            }
        }
    }
}

/// After the standard reduction no two columns have the same pivot.
pub proof fn lemma_standard_reduction_is_reduced(columns: Seq<Set<usize>>)
    ensures
        pivots_distinct(standard_reduction(columns)),
    decreases columns.len(),
{
    if columns.len() > 0 {
        let reduced = standard_reduction(columns.drop_last());
        lemma_standard_reduction_is_reduced(columns.drop_last());
        lemma_reduce_column_pivot(reduced, columns.last());
    }
}

} // verus!
