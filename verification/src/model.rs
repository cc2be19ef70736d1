//! Mathematical model of n-gram accumulation: which windows are eligible,
//! what each frequency table holds, and how table totals relate to the
//! number of eligible windows.

use vstd::prelude::*;

verus! {

/// Whether a character has the Unicode `White_Space` property.  The
/// classification is performed by `char::is_whitespace` (see the wrapper in
/// `accum`); the result depends on the character alone, so it is given a name
/// here rather than spelled out.
pub uninterp spec fn is_wspace(c: char) -> bool;

/// The window of length `k` ending at position `i` of `s` (inclusive), in
/// chronological (left-to-right) order.
pub open spec fn window_at(s: Seq<char>, i: int, k: int) -> Seq<char> {
    s.subrange(i + 1 - k, i + 1)
}

/// Whether the window of length `k` ending at position `i` is free of
/// whitespace characters.
pub open spec fn window_clean(s: Seq<char>, i: int, k: int) -> bool {
    forall|j: int| i + 1 - k <= j <= i ==> !is_wspace(s[j])
}

/// Whether the window of length `k` ending at position `i` of `s` is counted:
/// enough earlier characters must exist to fill it, and, unless whitespace is
/// included, it must contain no whitespace character.
pub open spec fn eligible(s: Seq<char>, i: int, k: int, include_ws: bool) -> bool {
    &&& 0 <= i < s.len()
    &&& 1 <= k
    &&& i + 1 - k >= 0
    &&& (include_ws || window_clean(s, i, k))
}

/// A frequency table with no entries.
pub open spec fn empty_table() -> Map<Seq<char>, nat> {
    Map::empty()
}

/// The count of `g` in `m`, zero if `g` is absent.
pub open spec fn key_count(m: Map<Seq<char>, nat>, g: Seq<char>) -> nat {
    if m.contains_key(g) {
        m[g]
    } else {
        0
    }
}

/// Increment the count of `g` in `m`, starting from zero if `g` is absent.
pub open spec fn bump_key(m: Map<Seq<char>, nat>, g: Seq<char>) -> Map<Seq<char>, nat> {
    m.insert(g, key_count(m, g) + 1)
}

/// Whether no two entries of a listing share a key.
pub open spec fn distinct_keys(s: Seq<(Seq<char>, nat)>) -> bool {
    forall|i: int, j: int| 0 <= i < j < s.len() ==> s[i].0 != s[j].0
}

/// The mapping that a listing of (key, count) entries denotes.
pub open spec fn pairs_map(s: Seq<(Seq<char>, nat)>) -> Map<Seq<char>, nat> {
    Map::new(
        |g: Seq<char>| exists|i: int| 0 <= i < s.len() && s[i].0 == g,
        |g: Seq<char>| s[choose|i: int| 0 <= i < s.len() && s[i].0 == g].1,
    )
}

/// The (key view, count) entries of a listing with character-vector keys.
pub open spec fn pairs_of_vecs(s: Seq<(Vec<char>, usize)>) -> Seq<(Seq<char>, nat)> {
    s.map_values(|p: (Vec<char>, usize)| (p.0@, p.1 as nat))
}

/// The (key view, count) entries of a listing with string keys.
pub open spec fn pairs_of_strings(s: Seq<(String, usize)>) -> Seq<(Seq<char>, nat)> {
    s.map_values(|p: (String, usize)| (p.0@, p.1 as nat))
}

/// The frequency table for window length `k` after the characters of `s`
/// have been processed in order: each eligible window of length `k` ending at
/// some position of `s` contributes one to the count of its character
/// sequence.
pub open spec fn count_map(s: Seq<char>, k: int, include_ws: bool) -> Map<Seq<char>, nat>
    decreases s.len(),
{
    if s.len() <= 0 {
        Map::empty()
    } else {
        let prev = count_map(s.drop_last(), k, include_ws);
        let i = s.len() - 1;
        if eligible(s, i, k, include_ws) {
            bump_key(prev, window_at(s, i, k))
        } else {
            prev
        }
    }
}

/// The number of eligible windows of length `k` in `s`.
pub open spec fn eligible_total(s: Seq<char>, k: int, include_ws: bool) -> nat
    decreases s.len(),
{
    if s.len() <= 0 {
        0
    } else {
        eligible_total(s.drop_last(), k, include_ws) + (if eligible(
            s,
            s.len() - 1,
            k,
            include_ws,
        ) {
            1nat
        } else {
            0nat
        })
    }
}

/// The sum of all counts in a frequency table.
pub open spec fn map_sum(m: Map<Seq<char>, nat>) -> nat
    decreases m.dom().len(),
{
    if m.dom().finite() && m.dom().len() > 0 {
        let g = m.dom().choose();
        m[g] + map_sum(m.remove(g))
    } else {
        0
    }
}

/// Windows earlier than the last position are unaffected by the last
/// character, so `count_map` grows step by step: processing one more
/// character bumps exactly the newly completed window, when it is eligible.
pub proof fn lemma_count_map_step(s: Seq<char>, c: char, k: int, include_ws: bool)
    ensures
        count_map(s.push(c), k, include_ws) == if eligible(s.push(c), s.len() as int, k, include_ws) {
            bump_key(count_map(s, k, include_ws), window_at(s.push(c), s.len() as int, k))
        } else {
            count_map(s, k, include_ws)
        },
        eligible_total(s.push(c), k, include_ws) == eligible_total(s, k, include_ws) + (
        if eligible(s.push(c), s.len() as int, k, include_ws) {
            1nat
        } else {
            0nat
        }),
{
    assert(s.push(c).drop_last() =~= s);
}

/// A frequency table has finitely many entries.
pub proof fn lemma_count_map_finite(s: Seq<char>, k: int, include_ws: bool)
    ensures
        count_map(s, k, include_ws).dom().finite(),
    decreases s.len(),
{
    if s.len() > 0 {
        lemma_count_map_finite(s.drop_last(), k, include_ws);
    }
}

/// Removing a key subtracts exactly its count from the sum, whichever key the
/// recursive definition of `map_sum` happens to peel first.
pub proof fn lemma_map_sum_remove(m: Map<Seq<char>, nat>, g: Seq<char>)
    requires
        m.dom().finite(),
        m.contains_key(g),
    ensures
        map_sum(m) == map_sum(m.remove(g)) + m[g],
    decreases m.dom().len(),
{
    broadcast use vstd::set_lib::group_set_properties;

    assert(m.dom().len() > 0) by {
        assert(m.dom().contains(g));
    }
    let c = m.dom().choose();
    assert(m.dom().contains(c));
    if c == g {
    } else {
        let mc = m.remove(c);
        let mg = m.remove(g);
        assert(mc.dom() =~= m.dom().remove(c));
        assert(mg.dom() =~= m.dom().remove(g));
        lemma_map_sum_remove(mc, g);
        lemma_map_sum_remove(mg, c);
        assert(mc.remove(g) =~= mg.remove(c));
        assert(map_sum(m) == m[c] + map_sum(mc));
    }
}

/// Bumping one key raises the sum of counts by exactly one.
pub proof fn lemma_map_sum_bump(m: Map<Seq<char>, nat>, g: Seq<char>)
    requires
        m.dom().finite(),
    ensures
        map_sum(bump_key(m, g)) == map_sum(m) + 1,
{
    broadcast use vstd::set_lib::group_set_properties;

    let b = bump_key(m, g);
    assert(b.dom() =~= m.dom().insert(g));
    lemma_map_sum_remove(b, g);
    if m.contains_key(g) {
        assert(b.remove(g) =~= m.remove(g));
        lemma_map_sum_remove(m, g);
    } else {
        assert(b.remove(g) =~= m);
    }
}

/// No key's count exceeds the sum of all counts.
pub proof fn lemma_key_le_sum(m: Map<Seq<char>, nat>, g: Seq<char>)
    requires
        m.dom().finite(),
    ensures
        key_count(m, g) <= map_sum(m),
{
    if m.contains_key(g) {
        lemma_map_sum_remove(m, g);
    }
}

/// There are no more eligible windows than characters.
pub proof fn lemma_eligible_total_le_len(s: Seq<char>, k: int, include_ws: bool)
    ensures
        eligible_total(s, k, include_ws) <= s.len(),
    decreases s.len(),
{
    if s.len() > 0 {
        lemma_eligible_total_le_len(s.drop_last(), k, include_ws);
    }
}

/// The sum of the counts in the frequency table for length `k` equals the
/// number of eligible windows of length `k`.
pub proof fn lemma_table_total(s: Seq<char>, k: int, include_ws: bool)
    ensures
        map_sum(count_map(s, k, include_ws)) == eligible_total(s, k, include_ws),
    decreases s.len(),
{
    if s.len() > 0 {
        let pre = s.drop_last();
        lemma_table_total(pre, k, include_ws);
        lemma_count_map_finite(pre, k, include_ws);
        if eligible(s, s.len() - 1, k, include_ws) {
            lemma_map_sum_bump(count_map(pre, k, include_ws), window_at(s, s.len() - 1, k));
        }
    }
}

} // verus!
