//! Ascending order on sequences of vertex indices and of index pairs, and
//! the standard library's sort as the means to reach it.

use vstd::prelude::*;
use vstd::relations::{sorted_by, total_ordering};
use vstd::seq_lib::lemma_sorted_unique;

verus! {

/// No element of `s` is larger than a later one.
pub open spec fn ascending(s: Seq<usize>) -> bool {
    forall|i: int, j: int| 0 <= i < j < s.len() ==> s[i] <= s[j]
}

/// `t` holds the elements of `s`, each as often as `s` does, in ascending
/// order.
pub open spec fn sorted_form(s: Seq<usize>, t: Seq<usize>) -> bool {
    ascending(t) && t.to_multiset() == s.to_multiset()
}

/// Pairs are ordered by their first component, then by their second.
pub open spec fn pair_le(a: (usize, usize), b: (usize, usize)) -> bool {
    a.0 < b.0 || (a.0 == b.0 && a.1 <= b.1)
}

/// No pair of `s` is larger than a later one.
pub open spec fn ascending_pairs(s: Seq<(usize, usize)>) -> bool {
    forall|i: int, j: int| 0 <= i < j < s.len() ==> pair_le(s[i], s[j])
}

/// `t` holds the pairs of `s`, each as often as `s` does, in ascending order.
pub open spec fn sorted_pairs_form(s: Seq<(usize, usize)>, t: Seq<(usize, usize)>) -> bool {
    ascending_pairs(t) && t.to_multiset() == s.to_multiset()
}

/// Sorts `list` with `<[usize]>::sort` of the standard library.
///
/// Trusted: the contract restates the documentation of `sort`, that the
/// slice afterwards holds the same elements in ascending order.
#[verifier::external_body]
pub(crate) fn sort_ascending(list: &mut Vec<usize>)
    ensures
        sorted_form(old(list)@, final(list)@),
{
    list.sort();
}

/// Sorts `list` with `<[(usize, usize)]>::sort` of the standard library.
///
/// Trusted: the contract restates the documentation of `sort` and of the
/// order of tuples, which compares the first components and, where they are
/// equal, the second.
#[verifier::external_body]
pub(crate) fn sort_pairs(list: &mut Vec<(usize, usize)>)
    ensures
        sorted_pairs_form(old(list)@, final(list)@),
{
    list.sort();
}

/// A sequence has one sorted form only.
pub proof fn lemma_sorted_form_unique(s: Seq<usize>, t1: Seq<usize>, t2: Seq<usize>)
    requires
        sorted_form(s, t1),
        sorted_form(s, t2),
    ensures
        t1 == t2,
{
    let leq = |a: usize, b: usize| a <= b;
    assert(total_ordering(leq));
    assert(sorted_by(t1, leq));
    assert(sorted_by(t2, leq));
    lemma_sorted_unique(t1, t2, leq);
}

/// The sorted form of an ascending sequence is the sequence itself.
pub proof fn lemma_sorted_form_of_ascending(s: Seq<usize>, t: Seq<usize>)
    requires
        ascending(s),
        sorted_form(s, t),
    ensures
        t == s,
{
    lemma_sorted_form_unique(s, s, t);
}

/// A sequence of pairs has one sorted form only.
pub proof fn lemma_sorted_pairs_form_unique(
    s: Seq<(usize, usize)>,
    t1: Seq<(usize, usize)>,
    t2: Seq<(usize, usize)>,
)
    requires
        sorted_pairs_form(s, t1),
        sorted_pairs_form(s, t2),
    ensures
        t1 == t2,
{
    let leq = |a: (usize, usize), b: (usize, usize)| pair_le(a, b);
    assert(total_ordering(leq));
    assert(sorted_by(t1, leq));
    assert(sorted_by(t2, leq));
    lemma_sorted_unique(t1, t2, leq);
}

/// A sorted form has the length of the sequence and holds its elements,
/// no others.
pub proof fn lemma_sorted_form_elements(s: Seq<usize>, t: Seq<usize>)
    requires
        s.to_multiset() == t.to_multiset(),
    ensures
        t.len() == s.len(),
        forall|x: usize| s.contains(x) <==> t.contains(x),
{
    broadcast use vstd::seq_lib::group_to_multiset_ensures;

    vstd::seq_lib::to_multiset_len(s);
    vstd::seq_lib::to_multiset_len(t);
    assert forall|x: usize| s.contains(x) <==> t.contains(x) by {
        assert(s.contains(x) <==> s.to_multiset().count(x) > 0);
        assert(t.contains(x) <==> t.to_multiset().count(x) > 0);
    }
}

} // verus!
