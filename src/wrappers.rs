//! Calls into std and into outside crates, each with the contract that the
//! library relies on.

use itertools::Itertools;
use std::collections::HashMap;
use vstd::prelude::*;

verus! {

/// Lexicographic order on pairs, as std orders tuples.
pub open spec fn pair_le(a: (usize, usize), b: (usize, usize)) -> bool {
    a.0 < b.0 || (a.0 == b.0 && a.1 <= b.1)
}

/// Relies on `slice::sort_unstable`: the pairs end up in ascending
/// lexicographic order and are a permutation of the input.
#[verifier::external_body]
pub(crate) fn sort_pairs(v: &mut Vec<(usize, usize)>)
    ensures
        final(v)@.len() == old(v)@.len(),
        final(v)@.to_multiset() == old(v)@.to_multiset(),
        forall|i: int, j: int|
            0 <= i < j < final(v)@.len() ==> pair_le(#[trigger] final(v)@[i], #[trigger] final(v)@[j]),
{
    v.sort_unstable();
}

/// A permutation of a sequence without repeated elements has none either,
/// and holds only elements of the original.
pub proof fn lemma_permutation_keeps_distinct<A>(s: Seq<A>, t: Seq<A>)
    requires
        s.no_duplicates(),
        t.to_multiset() == s.to_multiset(),
    ensures
        t.no_duplicates(),
        forall|x: A| t.contains(x) ==> s.contains(x),
{
    broadcast use vstd::seq_lib::group_to_multiset_ensures;

    s.lemma_multiset_has_no_duplicates();
    t.lemma_multiset_has_no_duplicates_conv();
    assert forall|x: A| t.contains(x) implies s.contains(x) by {
        assert(t.to_multiset().count(x) > 0);
    }
}

/// Relies on `Itertools::counts`: the map holds each value that occurs in
/// the input, with the number of its occurrences.
#[verifier::external_body]
pub(crate) fn count_values(values: &[usize]) -> (r: HashMap<usize, usize>)
    ensures
        forall|k: usize| r@.contains_key(k) <==> values@.contains(k),
        forall|k: usize| r@.contains_key(k) ==> r@[k] == values@.to_multiset().count(k),
{
    values.iter().copied().counts()
}

/// Relies on `Vec::from_iter` over a `HashMap`, whose iterator yields every
/// entry of the map once, in an order that is not specified.
#[verifier::external_body]
pub(crate) fn map_entries(m: HashMap<usize, usize>) -> (r: Vec<(usize, usize)>)
    ensures
        forall|i: int| 0 <= i < r@.len() ==> #[trigger] m@.contains_key(r@[i].0) && m@[r@[i].0] == r@[i].1,
        forall|k: usize| m@.contains_key(k) ==> exists|i: int| 0 <= i < r@.len() && r@[i].0 == k,
        forall|i: int, j: int| 0 <= i < j < r@.len() ==> #[trigger] r@[i].0 != #[trigger] r@[j].0,
{
    Vec::from_iter(m)
}

/// The lower-case form of a string, as `str::to_lowercase` gives it.
pub uninterp spec fn lower_of(s: Seq<char>) -> Seq<char>;

/// Relies on `str::to_lowercase`: the result depends on the characters alone.
#[verifier::external_body]
pub(crate) fn lowercase(s: &str) -> (r: String)
    ensures
        r@ == lower_of(s@),
{
    s.to_lowercase()
}

} // verus!
