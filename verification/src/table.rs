//! Trusted boundary around the `counter` crate's `Counter`, the hash-based
//! multiset that backs each frequency table.  Verified code sees a table only
//! through `table_contents`, the name given to what a counter holds.

use vstd::prelude::*;

use crate::model::{bump_key, distinct_keys, empty_table, key_count, pairs_map, pairs_of_vecs};

verus! {

#[verifier::external_type_specification]
#[verifier::external_body]
#[verifier::reject_recursive_types(T)]
#[verifier::reject_recursive_types(N)]
#[verifier::reject_recursive_types(S)]
pub struct ExCounter<T, N, S>(counter::Counter<T, N, S>);

/// What a counter of strings holds: each stored key's character sequence,
/// mapped to its stored count.
pub uninterp spec fn table_contents(t: counter::Counter<String>) -> Map<Seq<char>, nat>;

/// Relies on `Counter::new`: the new counter holds no entries.
#[verifier::external_body]
pub(crate) fn table_new() -> (t: counter::Counter<String>)
    ensures
        table_contents(t) == empty_table(),
{
    counter::Counter::new()
}

/// Relies on `Counter`'s `IndexMut` (`t[&key] += 1`): a missing key is first
/// inserted with a zero count, then the entry's count is incremented.
#[verifier::external_body]
pub(crate) fn table_bump(t: &mut counter::Counter<String>, gram: &Vec<char>)
    requires
        key_count(table_contents(*old(t)), gram@) < usize::MAX as nat,
    ensures
        table_contents(*final(t)) == bump_key(table_contents(*old(t)), gram@),
{
    let key: String = gram.iter().collect();
    t[&key] += 1;
}

/// Relies on iterating `&Counter` (its inner `HashMap`'s iterator): every
/// stored entry is yielded exactly once, in no promised order.
#[verifier::external_body]
pub(crate) fn table_items(t: &counter::Counter<String>) -> (r: Vec<(Vec<char>, usize)>)
    ensures
        distinct_keys(pairs_of_vecs(r@)),
        pairs_map(pairs_of_vecs(r@)) == table_contents(*t),
{
    t.into_iter().map(|(s, n)| (s.chars().collect(), *n)).collect()
}

} // verus!
