//! Sequences of indices in strict order.
//!
//! Vertices are kept in ascending order and row indices in descending order.
//! Either way a sequence is the one listing of the set of its entries.

use vstd::prelude::*;

verus! {

/// `s` lists its entries from the smallest to the largest, none twice.
pub open spec fn strictly_ascending(s: Seq<usize>) -> bool {
    forall|i: int, j: int| 0 <= i < j < s.len() ==> s[i] < s[j]
}

/// `s` lists its entries from the largest to the smallest, none twice.
pub open spec fn strictly_descending(s: Seq<usize>) -> bool {
    forall|i: int, j: int| 0 <= i < j < s.len() ==> s[i] > s[j]
}

/// `x` is one of the first `n` entries of `s`.
pub(crate) open spec fn among(s: Seq<usize>, n: int, x: usize) -> bool {
    exists|k: int| 0 <= k < n && s[k] == x
}

/// `x` is among the first `n + 1` entries if it is among the first `n` or is
/// entry `n`.
pub(crate) proof fn lemma_among_step(s: Seq<usize>, n: int, x: usize)
    requires
        0 <= n,
    ensures
        among(s, n + 1, x) <==> among(s, n, x) || s[n] == x,
{
}

/// To be among all entries is to be contained.
pub(crate) proof fn lemma_among_all(s: Seq<usize>, x: usize)
    ensures
        among(s, s.len() as int, x) <==> s.contains(x),
{
}

/// What a sequence contains after a push.
pub(crate) proof fn lemma_push_contains(s: Seq<usize>, x: usize)
    ensures
        forall|v: usize| s.push(v).contains(x) <==> s.contains(x) || v == x,
{
    assert forall|v: usize| s.push(v).contains(x) <==> s.contains(x) || v == x by {
        let t = s.push(v);
        if s.contains(x) {
            let k = choose|k: int| 0 <= k < s.len() && s[k] == x;
            assert(t[k] == x);
        }
        if v == x {
            assert(t[s.len() as int] == x);
        }
    }
}

/// A strictly descending sequence is determined by the set of its entries.
pub proof fn lemma_descending_is_canonical(s: Seq<usize>, t: Seq<usize>)
    requires
        strictly_descending(s),
        strictly_descending(t),
        s.to_set() == t.to_set(),
    ensures
        s == t,
    decreases s.len(),
{
    if s.len() == 0 {
        if t.len() > 0 {
            assert(t.to_set().contains(t[0]));
        }
    } else {
        // Both begin with the largest entry of the common set.
        assert(s.to_set().contains(s[0]));
        assert(t.to_set().contains(t[0]));
        let s1 = s.subrange(1, s.len() as int);
        let t1 = t.subrange(1, t.len() as int);
        assert forall|x: usize| s1.to_set().contains(x) == t1.to_set().contains(x) by {
            if s1.contains(x) {
                assert(t.to_set().contains(x));
                let j = choose|j: int| 0 <= j < t.len() && t[j] == x;
                assert(t1[j - 1] == x);
            }
            if t1.contains(x) {
                assert(s.to_set().contains(x));
                let j = choose|j: int| 0 <= j < s.len() && s[j] == x;
                assert(s1[j - 1] == x);
            }
        }
        assert(s1.to_set() =~= t1.to_set());
        lemma_descending_is_canonical(s1, t1);
        assert forall|i: int| 0 <= i < s.len() implies s[i] == t[i] by {
            if i > 0 {
                assert(s1[i - 1] == t1[i - 1]);
            }
        }
    }
}

/// A strictly ascending sequence is determined by the set of its entries.
pub proof fn lemma_ascending_is_canonical(s: Seq<usize>, t: Seq<usize>)
    requires
        strictly_ascending(s),
        strictly_ascending(t),
        s.to_set() == t.to_set(),
    ensures
        s == t,
{
    lemma_reverse_keeps_entries(s);
    lemma_reverse_keeps_entries(t);
    lemma_descending_is_canonical(s.reverse(), t.reverse());
    assert forall|i: int| 0 <= i < s.len() implies s[i] == t[i] by {
        assert(s.reverse()[s.len() - 1 - i] == s[i]);
    }
}

/// A sequence read backwards has the same entries, and descends where the
/// sequence ascends.
proof fn lemma_reverse_keeps_entries(s: Seq<usize>)
    ensures
        s.reverse().to_set() == s.to_set(),
        s.reverse().len() == s.len(),
        strictly_ascending(s) ==> strictly_descending(s.reverse()),
{
    let r = s.reverse();
    assert forall|x: usize| r.contains(x) <==> s.contains(x) by {
        if s.contains(x) {
            let i = choose|i: int| 0 <= i < s.len() && s[i] == x;
            assert(r[s.len() - 1 - i] == x);
        }
    }
}

/// Puts `x` at its place in a strictly ascending vector and says so, unless
/// it is there already.
pub(crate) fn insert_ascending(elements: &mut Vec<usize>, x: usize) -> (inserted: bool)
    requires
        strictly_ascending(old(elements)@),
    ensures
        inserted == !old(elements)@.to_set().contains(x),
        strictly_ascending(final(elements)@),
        final(elements)@.to_set() == old(elements)@.to_set().insert(x),
        final(elements)@.len() == old(elements)@.len() + if inserted {
            1int
        } else {
            0int
        },
{
    let mut p: usize = 0;
    while p < elements.len() && elements[p] < x
        invariant
            0 <= p <= elements.len(),
            elements@ == old(elements)@,
            forall|k: int| 0 <= k < p ==> elements@[k] < x,
        decreases elements.len() - p,
    {
        p = p + 1;
    }
    if p < elements.len() && elements[p] == x {
        false
    } else {
        let ghost before = elements@;
        elements.insert(p, x);
        proof {
            lemma_insert_adds_entry(before, p as int, x);
        }
        true
    }
}

/// Puts `x` at its place in a strictly descending vector, unless it is there
/// already.
pub(crate) fn insert_descending(elements: &mut Vec<usize>, x: usize)
    requires
        strictly_descending(old(elements)@),
    ensures
        strictly_descending(final(elements)@),
        final(elements)@.to_set() == old(elements)@.to_set().insert(x),
{
    let mut p: usize = 0;
    while p < elements.len() && elements[p] > x
        invariant
            0 <= p <= elements.len(),
            elements@ == old(elements)@,
            forall|k: int| 0 <= k < p ==> elements@[k] > x,
        decreases elements.len() - p,
    {
        p = p + 1;
    }
    if !(p < elements.len() && elements[p] == x) {
        let ghost before = elements@;
        elements.insert(p, x);
        proof {
            lemma_insert_adds_entry(before, p as int, x);
        }
    }
}

/// A sequence with `x` put in at position `p` has the entries of the
/// sequence and `x`, each where it stood or one place further on.
proof fn lemma_insert_adds_entry(s: Seq<usize>, p: int, x: usize)
    requires
        0 <= p <= s.len(),
    ensures
        s.insert(p, x).to_set() == s.to_set().insert(x),
        s.insert(p, x).len() == s.len() + 1,
        s.insert(p, x)[p] == x,
        forall|i: int| 0 <= i < p ==> s.insert(p, x)[i] == s[i],
        forall|i: int| p <= i < s.len() ==> s.insert(p, x)[i + 1] == s[i],
{
    let t = s.insert(p, x);
    assert forall|y: usize| t.to_set().contains(y) <==> s.to_set().insert(x).contains(y) by {
        if s.contains(y) {
            let k = choose|k: int| 0 <= k < s.len() && s[k] == y;
            if k < p {
                assert(t[k] == y);
            } else {
                assert(t[k + 1] == y);
            }
        }
        if y == x {
            assert(t[p] == y);
        }
    }
}

} // verus!
