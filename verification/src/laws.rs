//! Library-wide laws, stated over the model and proved once and for all.

use vstd::prelude::*;

use crate::model::{
    count_map, eligible, eligible_total, empty_table, lemma_table_total, map_sum,
};

verus! {

/// Empty input: every frequency table is empty, for every window length and
/// either whitespace policy, and no windows at all have been counted.
pub proof fn lemma_empty_input(k: int, include_ws: bool)
    ensures
        count_map(Seq::<char>::empty(), k, include_ws) == empty_table(),
        eligible_total(Seq::<char>::empty(), k, include_ws) == 0,
{
}

/// Excluding whitespace never increases a table's total count: every window
/// eligible under the exclusion policy is also eligible when whitespace is
/// included.
pub proof fn lemma_whitespace_policy_monotone(s: Seq<char>, k: int)
    ensures
        eligible_total(s, k, false) <= eligible_total(s, k, true),
        map_sum(count_map(s, k, false)) <= map_sum(count_map(s, k, true)),
{
    lemma_eligible_monotone(s, k);
    lemma_table_total(s, k, false);
    lemma_table_total(s, k, true);
}

proof fn lemma_eligible_monotone(s: Seq<char>, k: int)
    ensures
        eligible_total(s, k, false) <= eligible_total(s, k, true),
    decreases s.len(),
{
    if s.len() > 0 {
        lemma_eligible_monotone(s.drop_last(), k);
        assert(eligible(s, s.len() - 1, k, false) ==> eligible(s, s.len() - 1, k, true));
    }
}

} // verus!
