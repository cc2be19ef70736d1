//! Ranking and listing of frequency tables: entries ordered by descending
//! count with a documented deterministic tie-break (ascending lexicographic
//! order of the sequence, by Unicode scalar value), or by key alone for the
//! structured listing of all tables.

use vstd::prelude::*;

use crate::accum::Accumulator;
use vstd::multiset::Multiset;
use crate::model::{count_map, distinct_keys, pairs_map, pairs_of_strings, pairs_of_vecs};
use crate::table::table_items;

verus! {

/// Strict lexicographic order on character sequences, comparing Unicode
/// scalar values position by position; a proper prefix precedes its
/// extensions.
pub open spec fn lex_lt(a: Seq<char>, b: Seq<char>) -> bool
    decreases a.len(),
{
    if b.len() == 0 {
        false
    } else if a.len() == 0 {
        true
    } else if (a[0] as u32) < (b[0] as u32) {
        true
    } else if (b[0] as u32) < (a[0] as u32) {
        false
    } else {
        lex_lt(a.drop_first(), b.drop_first())
    }
}

/// Lexicographic order, allowing equality.
pub open spec fn lex_le(a: Seq<char>, b: Seq<char>) -> bool {
    lex_lt(a, b) || a == b
}

/// The reporting order on table entries.  With `by_count` the entry with the
/// larger count comes first and ties are broken by ascending lexicographic
/// key order; without it, entries are ordered by key alone.
pub open spec fn entry_le(by_count: bool, a: (Seq<char>, nat), b: (Seq<char>, nat)) -> bool {
    if by_count {
        a.1 > b.1 || (a.1 == b.1 && lex_le(a.0, b.0))
    } else {
        lex_le(a.0, b.0)
    }
}

/// Whether a listing is sorted for the given reporting order.
pub open spec fn sorted_entries(by_count: bool, s: Seq<(Seq<char>, nat)>) -> bool {
    forall|i: int, j: int| 0 <= i < j < s.len() ==> entry_le(by_count, s[i], s[j])
}

/// Characters casting to equal scalar values are equal.
proof fn lemma_char_eq(x: char, y: char)
    requires
        x as u32 == y as u32,
    ensures
        x == y,
{
    vstd::utf8::char_u32_cast(x, x as u32);
    vstd::utf8::char_u32_cast(y, y as u32);
}

/// Peeling equal first characters preserves both lexicographic orders.
proof fn lemma_lex_step(x: Seq<char>, y: Seq<char>)
    requires
        x.len() > 0,
        y.len() > 0,
        x[0] == y[0],
    ensures
        lex_lt(x, y) == lex_lt(x.drop_first(), y.drop_first()),
        lex_le(x, y) == lex_le(x.drop_first(), y.drop_first()),
{
    if x.drop_first() == y.drop_first() {
        assert(x.drop_first().len() == y.drop_first().len());
        assert(x.len() == y.len());
        assert forall|q: int| 0 <= q < x.len() implies x[q] == y[q] by {
            if q > 0 {
                assert(x[q] == x.drop_first()[q - 1]);
                assert(y[q] == y.drop_first()[q - 1]);
            }
        }
        assert(x =~= y);
    }
    if x == y {
        assert(x.drop_first() =~= y.drop_first());
    }
}

/// The lexicographic order is total.
proof fn lemma_lex_total(a: Seq<char>, b: Seq<char>)
    ensures
        lex_le(a, b) || lex_le(b, a),
    decreases a.len(),
{
    if a.len() == 0 && b.len() == 0 {
        assert(a =~= b);
    } else if a.len() > 0 && b.len() > 0 {
        if (a[0] as u32) == (b[0] as u32) {
            lemma_char_eq(a[0], b[0]);
            lemma_lex_total(a.drop_first(), b.drop_first());
            lemma_lex_step(a, b);
            lemma_lex_step(b, a);
        }
    }
}

/// The lexicographic order is transitive.
proof fn lemma_lex_trans(a: Seq<char>, b: Seq<char>, c: Seq<char>)
    requires
        lex_le(a, b),
        lex_le(b, c),
    ensures
        lex_le(a, c),
    decreases a.len() + b.len() + c.len(),
{
    if a == b || b == c {
    } else {
        // both strict; b and c are nonempty
        if a.len() == 0 {
        } else {
            // all three nonempty, heads ordered
            if (a[0] as u32) < (b[0] as u32) || (b[0] as u32) < (c[0] as u32) {
                assert((a[0] as u32) < (c[0] as u32) || (a[0] as u32) == (c[0] as u32));
            } else {
                lemma_char_eq(a[0], b[0]);
                lemma_char_eq(b[0], c[0]);
                lemma_lex_step(a, b);
                lemma_lex_step(b, c);
                lemma_lex_trans(a.drop_first(), b.drop_first(), c.drop_first());
                lemma_lex_step(a, c);
            }
        }
    }
}

/// The reporting order is total.
proof fn lemma_entry_total(by_count: bool, a: (Seq<char>, nat), b: (Seq<char>, nat))
    ensures
        entry_le(by_count, a, b) || entry_le(by_count, b, a),
{
    lemma_lex_total(a.0, b.0);
}

/// The reporting order is transitive.
proof fn lemma_entry_trans(by_count: bool, a: (Seq<char>, nat), b: (Seq<char>, nat), c: (Seq<char>, nat))
    requires
        entry_le(by_count, a, b),
        entry_le(by_count, b, c),
    ensures
        entry_le(by_count, a, c),
{
    if by_count {
        if a.1 == b.1 && b.1 == c.1 {
            lemma_lex_trans(a.0, b.0, c.0);
        }
    } else {
        lemma_lex_trans(a.0, b.0, c.0);
    }
}

/// Two listings with the same entries denote the same mapping, provided one
/// of them has no repeated key.
proof fn lemma_perm_same_map(a: Seq<(Seq<char>, nat)>, b: Seq<(Seq<char>, nat)>)
    requires
        a.to_multiset() == b.to_multiset(),
        distinct_keys(a),
    ensures
        pairs_map(a) == pairs_map(b),
{
    a.to_multiset_ensures();
    b.to_multiset_ensures();
    assert forall|g: Seq<char>| #[trigger] pairs_map(a).dom().contains(g) implies pairs_map(
        b,
    ).dom().contains(g) && pairs_map(a)[g] == pairs_map(b)[g] by {
        let ia = choose|i: int| 0 <= i < a.len() && a[i].0 == g;
        assert(a.contains(a[ia]));
        assert(a.to_multiset().count(a[ia]) > 0);
        assert(b.to_multiset().count(a[ia]) > 0);
        assert(b.contains(a[ia]));
        let jb = choose|j: int| 0 <= j < b.len() && b[j] == a[ia];
        assert(b[jb].0 == g);
        assert(pairs_map(b).dom().contains(g));
        let ib = choose|i: int| 0 <= i < b.len() && b[i].0 == g;
        assert(b.contains(b[ib]));
        assert(b.to_multiset().count(b[ib]) > 0);
        assert(a.to_multiset().count(b[ib]) > 0);
        assert(a.contains(b[ib]));
        let ja = choose|j: int| 0 <= j < a.len() && a[j] == b[ib];
        assert(a[ja].0 == g);
        assert(ja == ia) by {
            if ja < ia {
                assert(a[ja].0 != a[ia].0);
            } else if ia < ja {
                assert(a[ia].0 != a[ja].0);
            }
        }
        assert(pairs_map(a)[g] == a[ia].1);
        assert(pairs_map(b)[g] == b[ib].1);
    }
    assert forall|g: Seq<char>| #[trigger] pairs_map(b).dom().contains(g) implies pairs_map(
        a,
    ).dom().contains(g) by {
        let ib = choose|i: int| 0 <= i < b.len() && b[i].0 == g;
        assert(b.contains(b[ib]));
        assert(b.to_multiset().count(b[ib]) > 0);
        assert(a.to_multiset().count(b[ib]) > 0);
        assert(a.contains(b[ib]));
        let ja = choose|j: int| 0 <= j < a.len() && a[j] == b[ib];
        assert(a[ja].0 == g);
    }
    assert(pairs_map(a) =~= pairs_map(b));
}

/// A rearrangement of a listing with no repeated key has no repeated key.
proof fn lemma_perm_distinct(a: Seq<(Seq<char>, nat)>, b: Seq<(Seq<char>, nat)>)
    requires
        a.to_multiset() == b.to_multiset(),
        distinct_keys(a),
    ensures
        distinct_keys(b),
{
    a.to_multiset_ensures();
    b.to_multiset_ensures();
    assert(a.no_duplicates()) by {
        assert forall|i: int, j: int|
            0 <= i < a.len() && 0 <= j < a.len() && i != j implies a[i] != a[j] by {
            if i < j {
                assert(a[i].0 != a[j].0);
            } else {
                assert(a[j].0 != a[i].0);
            }
        }
    }
    a.lemma_multiset_has_no_duplicates();
    b.lemma_multiset_has_no_duplicates_conv();
    assert forall|i: int, j: int| 0 <= i < j < b.len() implies b[i].0 != b[j].0 by {
        assert(b[i] != b[j]);
        assert(b.contains(b[i]) && b.contains(b[j]));
        assert(b.to_multiset().count(b[i]) > 0 && b.to_multiset().count(b[j]) > 0);
        assert(a.to_multiset().count(b[i]) > 0 && a.to_multiset().count(b[j]) > 0);
        assert(a.contains(b[i]) && a.contains(b[j]));
        let ia = choose|q: int| 0 <= q < a.len() && a[q] == b[i];
        let ja = choose|q: int| 0 <= q < a.len() && a[q] == b[j];
        if b[i].0 == b[j].0 {
            assert(a[ia].0 == a[ja].0);
            assert(ia == ja) by {
                if ia < ja {
                    assert(a[ia].0 != a[ja].0);
                } else if ja < ia {
                    assert(a[ja].0 != a[ia].0);
                }
            }
        }
    }
}

/// Exec comparison realising `lex_le` on character vectors.
fn lex_le_exec(a: &Vec<char>, b: &Vec<char>) -> (r: bool)
    ensures
        r == lex_le(a@, b@),
{
    let alen = a.len();
    let blen = b.len();
    let mut i: usize = 0;
    proof {
        assert(a@.skip(0) =~= a@);
        assert(b@.skip(0) =~= b@);
    }
    while i < alen && i < blen
        invariant
            i <= alen,
            i <= blen,
            alen == a@.len(),
            blen == b@.len(),
            forall|q: int| 0 <= q < i ==> a@[q] == b@[q],
            lex_le(a@, b@) == lex_le(a@.skip(i as int), b@.skip(i as int)),
            lex_lt(a@, b@) == lex_lt(a@.skip(i as int), b@.skip(i as int)),
        decreases alen - i,
    {
        let ca = a[i] as u32;
        let cb = b[i] as u32;
        proof {
            assert(a@.skip(i as int)[0] == a@[i as int]);
            assert(b@.skip(i as int)[0] == b@[i as int]);
        }
        if ca < cb {
            return true;
        }
        if cb < ca {
            proof {
                assert(!lex_lt(a@.skip(i as int), b@.skip(i as int)));
                assert(a@.skip(i as int) != b@.skip(i as int)) by {
                    if a@.skip(i as int) == b@.skip(i as int) {
                        assert(a@.skip(i as int)[0] == b@.skip(i as int)[0]);
                    }
                }
            }
            return false;
        }
        proof {
            lemma_char_eq(a@[i as int], b@[i as int]);
            lemma_lex_step(a@.skip(i as int), b@.skip(i as int));
            assert(a@.skip(i as int).drop_first() =~= a@.skip(i + 1));
            assert(b@.skip(i as int).drop_first() =~= b@.skip(i + 1));
        }
        i += 1;
    }
    proof {
        if alen <= blen {
            assert(a@.skip(i as int) =~= Seq::<char>::empty());
            if i < blen {
                assert(lex_lt(a@.skip(i as int), b@.skip(i as int)));
            } else {
                assert(a@.skip(i as int) =~= b@.skip(i as int));
            }
        } else {
            assert(b@.skip(i as int) =~= Seq::<char>::empty());
            assert(!lex_lt(a@.skip(i as int), b@.skip(i as int)));
            assert(a@.skip(i as int).len() > 0);
            assert(a@.skip(i as int) != b@.skip(i as int));
        }
    }
    alen <= blen
}

/// Exec comparison realising the reporting order.
fn entry_before(by_count: bool, a: &(Vec<char>, usize), b: &(Vec<char>, usize)) -> (r: bool)
    ensures
        r == entry_le(by_count, (a.0@, a.1 as nat), (b.0@, b.1 as nat)),
{
    if by_count {
        if a.1 > b.1 {
            true
        } else if a.1 < b.1 {
            false
        } else {
            lex_le_exec(&a.0, &b.0)
        }
    } else {
        lex_le_exec(&a.0, &b.0)
    }
}

/// Position at which `item` belongs in the sorted listing `out`.
fn find_pos(by_count: bool, out: &Vec<(Vec<char>, usize)>, item: &(Vec<char>, usize)) -> (p: usize)
    requires
        sorted_entries(by_count, pairs_of_vecs(out@)),
    ensures
        p <= out@.len(),
        forall|q: int|
            0 <= q < p ==> entry_le(
                by_count,
                #[trigger] pairs_of_vecs(out@)[q],
                (item.0@, item.1 as nat),
            ),
        forall|q: int|
            p <= q < out@.len() ==> entry_le(
                by_count,
                (item.0@, item.1 as nat),
                #[trigger] pairs_of_vecs(out@)[q],
            ),
    {
    let ghost it = (item.0@, item.1 as nat);
    let mut p: usize = 0;
    while p < out.len()
        invariant
            p <= out@.len(),
            it == (item.0@, item.1 as nat),
            sorted_entries(by_count, pairs_of_vecs(out@)),
            forall|q: int| 0 <= q < p ==> entry_le(by_count, #[trigger] pairs_of_vecs(out@)[q], it),
        decreases out@.len() - p,
    {
        if !entry_before(by_count, &out[p], item) {
            proof {
                lemma_entry_total(by_count, pairs_of_vecs(out@)[p as int], it);
                assert forall|q: int| p <= q < out@.len() implies entry_le(
                    by_count,
                    it,
                    #[trigger] pairs_of_vecs(out@)[q],
                ) by {
                    if q > p {
                        lemma_entry_trans(
                            by_count,
                            it,
                            pairs_of_vecs(out@)[p as int],
                            pairs_of_vecs(out@)[q],
                        );
                    }
                }
            }
            return p;
        }
        p += 1;
    }
    p
}

/// Sort a listing of table entries for the given reporting order.  The
/// result lists exactly the same entries.
fn sort_entries(by_count: bool, items: Vec<(Vec<char>, usize)>) -> (r: Vec<(Vec<char>, usize)>)
    requires
        distinct_keys(pairs_of_vecs(items@)),
    ensures
        r@.len() == items@.len(),
        distinct_keys(pairs_of_vecs(r@)),
        pairs_map(pairs_of_vecs(r@)) == pairs_map(pairs_of_vecs(items@)),
        sorted_entries(by_count, pairs_of_vecs(r@)),
{
    let ghost orig = items@;
    let mut src = items;
    let mut out: Vec<(Vec<char>, usize)> = Vec::new();
    proof {
        orig.to_multiset_ensures();
        out@.to_multiset_ensures();
        assert(out@.to_multiset().add(src@.to_multiset()) =~= orig.to_multiset());
    }
    while src.len() > 0
        invariant
            out@.to_multiset().add(src@.to_multiset()) == orig.to_multiset(),
            out@.len() + src@.len() == orig.len(),
            sorted_entries(by_count, pairs_of_vecs(out@)),
        decreases src@.len(),
    {
        let ghost src0 = src@;
        let ghost out0 = out@;
        let item = src.pop().unwrap();
        let p = find_pos(by_count, &out, &item);
        out.insert(p, item);
        proof {
            src0.to_multiset_ensures();
            src@.to_multiset_ensures();
            out0.to_multiset_ensures();
            out@.to_multiset_ensures();
            assert(src@.push(item) =~= src0);
            assert(src0.to_multiset() =~= src@.to_multiset().insert(item));
            assert(out@.remove(p as int) =~= out0);
            assert(out@[p as int] == item);
            assert(out0.to_multiset() =~= out@.to_multiset().remove(item));
            assert(out@.contains(item));
            assert(out@.to_multiset().count(item) > 0);
            assert(out@.to_multiset() =~= out0.to_multiset().insert(item));
            assert(out@.to_multiset().add(src@.to_multiset()) =~= orig.to_multiset());
            // sortedness with the inserted entry
            assert forall|i: int, j: int|
                0 <= i < j < out@.len() implies entry_le(
                by_count,
                #[trigger] pairs_of_vecs(out@)[i],
                #[trigger] pairs_of_vecs(out@)[j],
            ) by {
                let pi = pairs_of_vecs(out@)[i];
                let pj = pairs_of_vecs(out@)[j];
                if i < p && j < p {
                    assert(pi == pairs_of_vecs(out0)[i] && pj == pairs_of_vecs(out0)[j]);
                } else if i < p && j == p {
                    assert(pi == pairs_of_vecs(out0)[i]);
                } else if i < p && j > p {
                    assert(pi == pairs_of_vecs(out0)[i] && pj == pairs_of_vecs(out0)[j - 1]);
                } else if i == p {
                    assert(pj == pairs_of_vecs(out0)[j - 1]);
                } else {
                    assert(pi == pairs_of_vecs(out0)[i - 1] && pj == pairs_of_vecs(out0)[j - 1]);
                }
            }
        }
    }
    proof {
        src@.to_multiset_ensures();
        assert(src@.to_multiset() =~= Multiset::<(Vec<char>, usize)>::empty());
        assert(out@.to_multiset() =~= orig.to_multiset());
        // the views carry the same entries, so the same mapping and keys
        lemma_pairs_multiset(out@, orig);
        lemma_perm_same_map(pairs_of_vecs(orig), pairs_of_vecs(out@));
        lemma_perm_distinct(pairs_of_vecs(orig), pairs_of_vecs(out@));
    }
    out
}

/// Equal multisets of entries yield equal multisets of their views.
proof fn lemma_pairs_multiset(a: Seq<(Vec<char>, usize)>, b: Seq<(Vec<char>, usize)>)
    requires
        a.to_multiset() == b.to_multiset(),
    ensures
        pairs_of_vecs(a).to_multiset() == pairs_of_vecs(b).to_multiset(),
    decreases a.len(),
{
    a.to_multiset_ensures();
    b.to_multiset_ensures();
    pairs_of_vecs(a).to_multiset_ensures();
    pairs_of_vecs(b).to_multiset_ensures();
    if a.len() == 0 {
        assert(b.to_multiset().len() == 0);
        assert(b.len() == 0);
        assert(pairs_of_vecs(a) =~= pairs_of_vecs(b));
    } else {
        let x = a.last();
        let a1 = a.drop_last();
        a1.to_multiset_ensures();
        assert(a1.push(x) =~= a);
        assert(a.to_multiset() =~= a1.to_multiset().insert(x));
        assert(b.to_multiset().count(x) > 0);
        assert(b.contains(x));
        let k = choose|q: int| 0 <= q < b.len() && b[q] == x;
        let b1 = b.remove(k);
        b1.to_multiset_ensures();
        assert(b1.to_multiset() =~= b.to_multiset().remove(x));
        assert(a1.to_multiset() =~= b1.to_multiset()) by {
            assert(a1.to_multiset() =~= a.to_multiset().remove(x));
        }
        lemma_pairs_multiset(a1, b1);
        pairs_of_vecs(a1).to_multiset_ensures();
        pairs_of_vecs(b1).to_multiset_ensures();
        assert(pairs_of_vecs(a1).push((x.0@, x.1 as nat)) =~= pairs_of_vecs(a));
        assert(pairs_of_vecs(a).to_multiset() =~= pairs_of_vecs(a1).to_multiset().insert(
            (x.0@, x.1 as nat),
        ));
        assert(pairs_of_vecs(b).remove(k) =~= pairs_of_vecs(b1));
        assert(pairs_of_vecs(b)[k] == (x.0@, x.1 as nat));
        assert(pairs_of_vecs(b1).to_multiset() =~= pairs_of_vecs(b).to_multiset().remove(
            (x.0@, x.1 as nat),
        ));
        assert(pairs_of_vecs(b).to_multiset().count((x.0@, x.1 as nat)) > 0) by {
            assert(pairs_of_vecs(b).contains(pairs_of_vecs(b)[k]));
        }
        assert(pairs_of_vecs(a).to_multiset() =~= pairs_of_vecs(b).to_multiset());
    }
}

/// Relies on `String`'s `FromIterator<char>` implementation: collecting
/// characters yields the string of exactly those characters, in order.
#[verifier::external_body]
fn chars_to_string(cs: &Vec<char>) -> (r: String)
    ensures
        r@ == cs@,
{
    cs.iter().collect()
}

/// Replace each character-vector key by the equal string key.
fn to_string_entries(v: Vec<(Vec<char>, usize)>) -> (r: Vec<(String, usize)>)
    ensures
        pairs_of_strings(r@) == pairs_of_vecs(v@),
{
    let mut out: Vec<(String, usize)> = Vec::new();
    let mut i: usize = 0;
    while i < v.len()
        invariant
            i <= v@.len(),
            out@.len() == i,
            forall|j: int|
                0 <= j < i ==> #[trigger] pairs_of_strings(out@)[j] == pairs_of_vecs(v@)[j],
        decreases v@.len() - i,
    {
        let ghost out0 = out@;
        let s = chars_to_string(&v[i].0);
        let cnt = v[i].1;
        out.push((s, cnt));
        proof {
            assert forall|j: int| 0 <= j < i + 1 implies #[trigger] pairs_of_strings(out@)[j]
                == pairs_of_vecs(v@)[j] by {
                if j < i {
                    assert(out@[j] == out0[j]);
                    assert(pairs_of_strings(out0)[j] == pairs_of_vecs(v@)[j]);
                } else {
                    assert(out@[j].0@ == v@[j].0@ && out@[j].1 == v@[j].1);
                }
            }
        }
        i += 1;
    }
    proof {
        assert(pairs_of_strings(out@) =~= pairs_of_vecs(v@));
    }
    out
}

impl Accumulator {
    /// The ranked listing of the full-length table: every entry of the table
    /// for window length `n`, sorted by descending count, ties broken by
    /// ascending lexicographic order of the sequence.
    pub fn ranked(&self) -> (r: Vec<(String, usize)>)
        requires
            self.wf(),
        ensures
            distinct_keys(pairs_of_strings(r@)),
            pairs_map(pairs_of_strings(r@)) == count_map(
                self.input(),
                self.n as int,
                self.include_ws,
            ),
            sorted_entries(true, pairs_of_strings(r@)),
    {
        let items = table_items(&self.tables[self.n - 1]);
        let sorted = sort_entries(true, items);
        to_string_entries(sorted)
    }

    /// Every table, for window lengths 1 through `n` in that order, each
    /// listed in ascending lexicographic key order.
    pub fn all_tables(&self) -> (r: Vec<Vec<(String, usize)>>)
        requires
            self.wf(),
        ensures
            r@.len() == self.n as nat,
            forall|k: int|
                0 <= k < self.n ==> distinct_keys(#[trigger] pairs_of_strings(r@[k]@)),
            forall|k: int|
                0 <= k < self.n ==> #[trigger] pairs_map(pairs_of_strings(r@[k]@)) == count_map(
                    self.input(),
                    k + 1,
                    self.include_ws,
                ),
            forall|k: int|
                0 <= k < self.n ==> sorted_entries(false, #[trigger] pairs_of_strings(r@[k]@)),
    {
        let mut out: Vec<Vec<(String, usize)>> = Vec::new();
        let mut idx: usize = 0;
        while idx < self.n
            invariant
                idx <= self.n,
                self.wf(),
                out@.len() == idx,
                forall|k: int|
                    0 <= k < idx ==> distinct_keys(#[trigger] pairs_of_strings(out@[k]@)),
                forall|k: int|
                    0 <= k < idx ==> #[trigger] pairs_map(pairs_of_strings(out@[k]@)) == count_map(
                        self.input(),
                        k + 1,
                        self.include_ws,
                    ),
                forall|k: int|
                    0 <= k < idx ==> sorted_entries(false, #[trigger] pairs_of_strings(out@[k]@)),
            decreases self.n - idx,
        {
            let items = table_items(&self.tables[idx]);
            let sorted = sort_entries(false, items);
            let entry = to_string_entries(sorted);
            out.push(entry);
            idx += 1;
        }
        out
    }
}

} // verus!
