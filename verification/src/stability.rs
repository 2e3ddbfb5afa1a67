//! The persistence pairs do not depend on how a matrix was reduced.
//!
//! A reduction of a matrix adds columns to columns on their right until no
//! two columns share a pivot. Which column is added where there is a choice
//! changes the columns of the result, but not their pivots, and the pairs are
//! read off the pivots alone.

use crate::z2reduction::{
    is_first_with_pivot, lemma_standard_reduction_is_reduced, persistence_pairs,
    persistence_pairs_with_dimension, pivot_rank, pivot_table, pivots_distinct, reduce_column,
    standard_reduction,
};
use crate::z2vector::{lemma_add_cancels_pivot, lemma_pivot_is_maximum, pivot, symmetric_difference};
use vstd::prelude::*;

verus! {

/// The sum of those among the first `n` columns whose positions `selection`
/// holds.
pub open spec fn combination(columns: Seq<Set<usize>>, selection: Set<int>, n: nat) -> Set<usize>
    decreases n,
{
    if n == 0 {
        Set::empty()
    } else {
        let rest = combination(columns, selection, (n - 1) as nat);
        if selection.contains(n - 1) {
            symmetric_difference(rest, columns[n - 1])
        } else {
            rest
        }
    }
}

/// The positions that lie in exactly one of two selections: the selection of
/// the sum of their combinations.
pub open spec fn selection_sum(a: Set<int>, b: Set<int>) -> Set<int> {
    Set::new(|i: int| a.contains(i) != b.contains(i))
}

/// Column `j` of `reduced` is column `j` of `boundary` plus the columns of
/// `reduced` to the left of it that `selection` holds.
pub open spec fn is_sum_with(
    reduced: Seq<Set<usize>>,
    boundary: Seq<Set<usize>>,
    j: int,
    selection: Set<int>,
) -> bool {
    reduced[j] == symmetric_difference(boundary[j], combination(reduced, selection, j as nat))
}

/// Column `j` of `reduced` is column `j` of `boundary` plus some columns of
/// `reduced` to the left of it.
pub open spec fn derives_column(
    reduced: Seq<Set<usize>>,
    boundary: Seq<Set<usize>>,
    j: int,
) -> bool {
    exists|selection: Set<int>| is_sum_with(reduced, boundary, j, selection)
}

/// `derived` has the columns of `boundary`, each with columns to the left of
/// it added.
pub open spec fn is_derived_from(derived: Seq<Set<usize>>, boundary: Seq<Set<usize>>) -> bool {
    &&& derived.len() == boundary.len()
    &&& forall|j: int| 0 <= j < derived.len() ==> #[trigger] derives_column(derived, boundary, j)
}

/// `reduced` is a reduction of `boundary`: it has the columns of `boundary`,
/// each with columns to the left of it added, and no two of its columns have
/// the same pivot.
pub open spec fn is_reduction_of(reduced: Seq<Set<usize>>, boundary: Seq<Set<usize>>) -> bool {
    is_derived_from(reduced, boundary) && pivots_distinct(reduced)
}

/// A combination depends on the selection below `n` only.
proof fn lemma_combination_agrees(columns: Seq<Set<usize>>, a: Set<int>, b: Set<int>, n: nat)
    requires
        forall|i: int| 0 <= i < n ==> a.contains(i) == b.contains(i),
    ensures
        combination(columns, a, n) == combination(columns, b, n),
    decreases n,
{
    if n > 0 {
        lemma_combination_agrees(columns, a, b, (n - 1) as nat);
    }
}

/// A combination depends on the first `n` columns only.
proof fn lemma_combination_of_prefix(
    x: Seq<Set<usize>>,
    y: Seq<Set<usize>>,
    selection: Set<int>,
    n: nat,
)
    requires
        forall|i: int| 0 <= i < n ==> x[i] == y[i],
    ensures
        combination(x, selection, n) == combination(y, selection, n),
    decreases n,
{
    if n > 0 {
        lemma_combination_of_prefix(x, y, selection, (n - 1) as nat);
    }
}

/// The combination of no columns is empty.
proof fn lemma_combination_of_none(columns: Seq<Set<usize>>, selection: Set<int>, n: nat)
    requires
        forall|i: int| 0 <= i < n ==> !selection.contains(i),
    ensures
        combination(columns, selection, n) == Set::<usize>::empty(),
    decreases n,
{
    if n > 0 {
        lemma_combination_of_none(columns, selection, (n - 1) as nat);
    }
}

/// The combination of one column is that column.
proof fn lemma_combination_of_one(columns: Seq<Set<usize>>, k: int, n: nat)
    requires
        0 <= k < n,
    ensures
        combination(columns, set![k], n) == columns[k],
    decreases n,
{
    let selection = set![k];
    if n - 1 == k {
        lemma_combination_of_none(columns, selection, k as nat);
        assert(symmetric_difference(Set::<usize>::empty(), columns[k]) =~= columns[k]);
    } else {
        lemma_combination_of_one(columns, k, (n - 1) as nat);
    }
}

/// The sum of two combinations is the combination of the sum of their
/// selections.
proof fn lemma_combination_sum(columns: Seq<Set<usize>>, a: Set<int>, b: Set<int>, n: nat)
    ensures
        symmetric_difference(combination(columns, a, n), combination(columns, b, n))
            == combination(columns, selection_sum(a, b), n),
    decreases n,
{
    if n == 0 {
        assert(symmetric_difference(Set::<usize>::empty(), Set::<usize>::empty())
            =~= Set::<usize>::empty());
    } else {
        lemma_combination_sum(columns, a, b, (n - 1) as nat);
        let ra = combination(columns, a, (n - 1) as nat);
        let rb = combination(columns, b, (n - 1) as nat);
        let c = columns[n - 1];
        assert(symmetric_difference(symmetric_difference(ra, c), symmetric_difference(rb, c))
            =~= symmetric_difference(ra, rb));
        assert(symmetric_difference(symmetric_difference(ra, c), rb) =~= symmetric_difference(
            symmetric_difference(ra, rb),
            c,
        ));
        assert(symmetric_difference(ra, symmetric_difference(rb, c)) =~= symmetric_difference(
            symmetric_difference(ra, rb),
            c,
        ));
    }
}

/// Where all but one of the selected columns lack `x`, the combination holds
/// `x` exactly if that one column is selected and holds it.
proof fn lemma_combination_holds(
    columns: Seq<Set<usize>>,
    selection: Set<int>,
    n: nat,
    star: int,
    x: usize,
)
    requires
        forall|i: int| 0 <= i < n && selection.contains(i) && i != star ==> !columns[i].contains(x),
    ensures
        combination(columns, selection, n).contains(x) <==> (0 <= star < n && selection.contains(
            star,
        ) && columns[star].contains(x)),
    decreases n,
{
    if n > 0 {
        lemma_combination_holds(columns, selection, (n - 1) as nat, star, x);
    }
}

/// Among the selected columns with a pivot there is one whose pivot is the
/// largest.
proof fn lemma_largest_selected_pivot(
    columns: Seq<Set<usize>>,
    selection: Set<int>,
    n: nat,
    j: int,
    p: usize,
) -> (r: (int, usize))
    requires
        0 <= j < n,
        selection.contains(j),
        pivot(columns[j]) == Some(p),
    ensures
        0 <= r.0 < n,
        selection.contains(r.0),
        pivot(columns[r.0]) == Some(r.1),
        r.1 >= p,
        forall|i: int|
            0 <= i < n && selection.contains(i) ==> (pivot(#[trigger] columns[i]) matches Some(q)
                ==> q <= r.1),
    decreases usize::MAX - p,
{
    if forall|i: int|
        0 <= i < n && selection.contains(i) ==> (pivot(#[trigger] columns[i]) matches Some(q) ==> q
            <= p) {
        (j, p)
    } else {
        let i = choose|i: int|
            0 <= i < n && selection.contains(i) && !(pivot(#[trigger] columns[i]) matches Some(q)
                ==> q <= p);
        let q = pivot(columns[i])->0;
        lemma_largest_selected_pivot(columns, selection, n, i, q)
    }
}

/// In a matrix without shared pivots, a combination has a pivot that is
/// at least the pivot of each column that goes into it.
proof fn lemma_combination_pivot_dominates(
    columns: Seq<Set<usize>>,
    selection: Set<int>,
    n: nat,
    j: int,
    p: usize,
)
    requires
        pivots_distinct(columns),
        0 <= j < n <= columns.len(),
        selection.contains(j),
        pivot(columns[j]) == Some(p),
    ensures
        pivot(combination(columns, selection, n)) matches Some(q) && q >= p,
{
    let (star, top) = lemma_largest_selected_pivot(columns, selection, n, j, p);
    assert forall|i: int|
        0 <= i < n && selection.contains(i) && i != star implies !columns[i].contains(top) by {
        lemma_pivot_is_maximum(columns[i]);
        if columns[i].contains(top) {
            let q = pivot(columns[i])->0;
            assert(top <= q);
            assert(q <= top);
            assert(pivot(columns[i]) == pivot(columns[star]));
        }
    }
    lemma_combination_holds(columns, selection, n, star, top);
    lemma_pivot_is_maximum(columns[star]);
    let sum = combination(columns, selection, n);
    assert(sum.contains(top));
    lemma_pivot_is_maximum(sum);
}

/// Column `j` of one matrix derived from `boundary` is column `j` of
/// another plus columns of that other to the left of it.
proof fn lemma_column_difference(
    boundary: Seq<Set<usize>>,
    first: Seq<Set<usize>>,
    second: Seq<Set<usize>>,
    j: int,
) -> (w: Set<int>)
    requires
        is_derived_from(first, boundary),
        is_derived_from(second, boundary),
        0 <= j < boundary.len(),
    ensures
        second[j] == symmetric_difference(first[j], combination(first, w, j as nat)),
    decreases j, 1int,
{
    assert(derives_column(first, boundary, j));
    assert(derives_column(second, boundary, j));
    let s1 = choose|s: Set<int>| is_sum_with(first, boundary, j, s);
    let s2 = choose|s: Set<int>| is_sum_with(second, boundary, j, s);
    let u = lemma_translate(boundary, first, second, s2, j as nat);
    lemma_combination_sum(first, s1, u, j as nat);
    let w = selection_sum(s1, u);
    let c1 = combination(first, s1, j as nat);
    let cu = combination(first, u, j as nat);
    assert(first[j] == symmetric_difference(boundary[j], c1));
    assert(second[j] == symmetric_difference(boundary[j], cu));
    assert(second[j] =~= symmetric_difference(first[j], symmetric_difference(c1, cu)));
    w
}

/// A combination of columns of one matrix derived from `boundary` is a
/// combination of columns of another.
proof fn lemma_translate(
    boundary: Seq<Set<usize>>,
    first: Seq<Set<usize>>,
    second: Seq<Set<usize>>,
    selection: Set<int>,
    n: nat,
) -> (u: Set<int>)
    requires
        is_derived_from(first, boundary),
        is_derived_from(second, boundary),
        n <= boundary.len(),
    ensures
        combination(second, selection, n) == combination(first, u, n),
    decreases n, 0int,
{
    if n == 0 {
        Set::empty()
    } else {
        let m = (n - 1) as nat;
        let u0 = lemma_translate(boundary, first, second, selection, m);
        if selection.contains(n - 1) {
            let w = lemma_column_difference(boundary, first, second, n - 1);
            let v = selection_sum(u0, w);
            lemma_combination_sum(first, u0, w, m);
            let u = v.insert(n - 1);
            lemma_combination_agrees(first, v, u, m);
            let a = combination(first, u0, m);
            let b = combination(first, w, m);
            assert(combination(second, selection, n) == symmetric_difference(a, second[n - 1]));
            assert(combination(first, u, n) == symmetric_difference(
                symmetric_difference(a, b),
                first[n - 1],
            ));
            assert(symmetric_difference(a, symmetric_difference(first[n - 1], b))
                =~= symmetric_difference(symmetric_difference(a, b), first[n - 1]));
            u
        } else {
            let u = u0.remove(n - 1);
            lemma_combination_agrees(first, u0, u, m);
            u
        }
    }
}

/// Where a column of a reduction has a pivot, the column at its place in any
/// matrix derived from the same boundary has one that is at least as large.
proof fn lemma_pivot_dominated(
    boundary: Seq<Set<usize>>,
    first: Seq<Set<usize>>,
    second: Seq<Set<usize>>,
    j: int,
)
    requires
        is_reduction_of(first, boundary),
        is_derived_from(second, boundary),
        0 <= j < boundary.len(),
    ensures
        pivot(first[j]) matches Some(p) ==> (pivot(second[j]) matches Some(q) && q >= p),
{
    let w = lemma_column_difference(boundary, first, second, j);
    let t = w.insert(j);
    lemma_combination_agrees(first, w, t, j as nat);
    let rest = combination(first, w, j as nat);
    assert(combination(first, t, (j + 1) as nat) == symmetric_difference(rest, first[j]));
    assert(symmetric_difference(rest, first[j]) =~= symmetric_difference(first[j], rest));
    if let Some(p) = pivot(first[j]) {
        lemma_combination_pivot_dominates(first, t, (j + 1) as nat, j, p);
    }
}

/// Two reductions of one matrix have the same pivots, column by column.
pub proof fn lemma_reductions_share_pivots(
    boundary: Seq<Set<usize>>,
    first: Seq<Set<usize>>,
    second: Seq<Set<usize>>,
)
    requires
        is_reduction_of(first, boundary),
        is_reduction_of(second, boundary),
    ensures
        pivot_table(first) == pivot_table(second),
{
    assert forall|j: int| 0 <= j < first.len() implies pivot(first[j]) == pivot(second[j]) by {
        lemma_pivot_dominated(boundary, first, second, j);
        lemma_pivot_dominated(boundary, second, first, j);
    }
    assert(pivot_table(first) =~= pivot_table(second));
}

/// A reduced column is the column plus some of the columns that it was
/// reduced against.
proof fn lemma_reduce_column_is_sum(reduced: Seq<Set<usize>>, column: Set<usize>) -> (s: Set<int>)
    ensures
        reduce_column(reduced, column) == symmetric_difference(
            column,
            combination(reduced, s, reduced.len()),
        ),
    decreases pivot_rank(column),
{
    let n = reduced.len();
    let none = Set::<int>::empty();
    lemma_combination_of_none(reduced, none, n);
    assert(symmetric_difference(column, Set::<usize>::empty()) =~= column);
    match pivot(column) {
        Some(p) => {
            if exists|k: int| is_first_with_pivot(reduced, p, k) {
                let k = choose|k: int| is_first_with_pivot(reduced, p, k);
                let next = symmetric_difference(column, reduced[k]);
                lemma_add_cancels_pivot(column, reduced[k], p);
                let s0 = lemma_reduce_column_is_sum(reduced, next);
                lemma_combination_of_one(reduced, k, n);
                lemma_combination_sum(reduced, set![k], s0, n);
                let rest = combination(reduced, s0, n);
                assert(symmetric_difference(next, rest) =~= symmetric_difference(
                    column,
                    symmetric_difference(reduced[k], rest),
                ));
                selection_sum(set![k], s0)
            } else {
                none
            }
        },
        None => none,
    }
}

/// The standard reduction of the first `j` columns is the first `j` columns
/// of the standard reduction.
pub proof fn lemma_standard_reduction_of_prefix(columns: Seq<Set<usize>>, j: int)
    requires
        0 <= j <= columns.len(),
    ensures
        standard_reduction(columns.take(j)) == standard_reduction(columns).take(j),
        standard_reduction(columns).len() == columns.len(),
    decreases columns.len(),
{
    if columns.len() == 0 {
        assert(columns.take(j) =~= columns);
        assert(standard_reduction(columns).take(j) =~= standard_reduction(columns));
    } else {
        let front = columns.drop_last();
        lemma_standard_reduction_of_prefix(front, front.len() as int);
        if j == columns.len() {
            assert(columns.take(j) =~= columns);
            assert(standard_reduction(columns).take(j) =~= standard_reduction(columns));
        } else {
            lemma_standard_reduction_of_prefix(front, j);
            assert(front.take(j) =~= columns.take(j));
            assert(standard_reduction(columns).take(j) =~= standard_reduction(front).take(j));
        }
    }
}

/// The standard reduction is a reduction.
pub proof fn lemma_standard_reduction_is_reduction(boundary: Seq<Set<usize>>)
    ensures
        is_reduction_of(standard_reduction(boundary), boundary),
{
    let reduced = standard_reduction(boundary);
    lemma_standard_reduction_of_prefix(boundary, 0);
    lemma_standard_reduction_is_reduced(boundary);
    assert forall|j: int| 0 <= j < reduced.len() implies #[trigger] derives_column(
        reduced,
        boundary,
        j,
    ) by {
        let upto = boundary.take(j + 1);
        lemma_standard_reduction_of_prefix(boundary, j + 1);
        lemma_standard_reduction_of_prefix(boundary, j);
        assert(upto.drop_last() =~= boundary.take(j));
        assert(upto.last() == boundary[j]);
        let before = reduced.take(j);
        assert(standard_reduction(upto) == before.push(reduce_column(before, boundary[j])));
        assert(reduced.take(j + 1)[j] == reduced[j]);
        assert(reduced[j] == reduce_column(before, boundary[j]));
        let s = lemma_reduce_column_is_sum(before, boundary[j]);
        lemma_combination_of_prefix(before, reduced, s, j as nat);
        assert(is_sum_with(reduced, boundary, j, s));
    }
}

/// The pairs are stable under the choice of the column that is added where
/// several have the pivot in question: every reduction of a matrix has the
/// pivots of the standard reduction, and with them its persistence pairs.
pub proof fn lemma_pairing_is_stable(
    boundary: Seq<Set<usize>>,
    reduced: Seq<Set<usize>>,
    tags: Seq<usize>,
)
    requires
        is_reduction_of(reduced, boundary),
    ensures
        pivot_table(reduced) == pivot_table(standard_reduction(boundary)),
        persistence_pairs(pivot_table(reduced)) == persistence_pairs(
            pivot_table(standard_reduction(boundary)),
        ),
        persistence_pairs_with_dimension(pivot_table(reduced), tags)
            == persistence_pairs_with_dimension(pivot_table(standard_reduction(boundary)), tags),
{
    lemma_standard_reduction_is_reduction(boundary);
    lemma_reductions_share_pivots(boundary, reduced, standard_reduction(boundary));
}

} // verus!
