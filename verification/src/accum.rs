//! The n-gram accumulator: consumes decoded characters one at a time,
//! maintains a bounded history of recent characters, and keeps one frequency
//! table per window length from 1 to the configured maximum.

use vstd::prelude::*;

use crate::model::{
    count_map, eligible, eligible_total, empty_table, is_wspace, key_count, lemma_count_map_finite,
    lemma_count_map_step, lemma_eligible_total_le_len, lemma_key_le_sum, lemma_table_total,
    window_at, window_clean,
};
use crate::table::{table_bump, table_contents, table_new};

verus! {

/// Relies on `char::is_whitespace`: whether the character has the Unicode
/// `White_Space` property.  The result depends on the character alone.
#[verifier::external_body]
pub(crate) fn char_is_ws(c: char) -> (r: bool)
    ensures
        r == is_wspace(c),
{
    c.is_whitespace()
}

/// Streaming n-gram counter.
///
/// `tables[i]` counts the windows of length `i + 1`; `history` holds the most
/// recently processed characters, newest first, never more than `n` of them.
pub struct Accumulator {
    /// Maximum window length (the configured N).
    pub n: usize,
    /// Whether windows containing whitespace are counted.
    pub include_ws: bool,
    /// Recently processed characters, newest first; length <= n.
    pub history: Vec<char>,
    /// One frequency table per window length 1..=n.
    pub tables: Vec<counter::Counter<String>>,
    /// For each window length, the number of eligible windows counted so far.
    pub totals: Vec<usize>,
    /// The whole sequence of characters processed so far.
    pub processed: Ghost<Seq<char>>,
}

impl Accumulator {
    /// The characters processed so far, in order.
    pub open spec fn input(&self) -> Seq<char> {
        self.processed@
    }

    /// Structural invariant: the history mirrors the tail of the processed
    /// sequence (newest first, capped at `n`), and each table holds exactly
    /// the counts of the eligible windows of its length.
    pub open spec fn wf(&self) -> bool {
        &&& 1 <= self.n
        &&& self.input().len() <= usize::MAX as nat
        &&& self.tables@.len() == self.n
        &&& self.totals@.len() == self.n
        &&& forall|j: int|
            0 <= j < self.n ==> #[trigger] self.totals@[j] as nat == eligible_total(
                self.input(),
                j + 1,
                self.include_ws,
            )
        &&& self.history@.len() == vstd::math::min(self.input().len() as int, self.n as int)
        &&& forall|j: int|
            0 <= j < self.history@.len() ==> self.history@[j] == self.input()[self.input().len()
                - 1 - j]
        &&& forall|j: int|
            0 <= j < self.n ==> #[trigger] table_contents(self.tables@[j]) == count_map(
                self.input(),
                j + 1,
                self.include_ws,
            )
    }

    /// Create an accumulator for window lengths 1 through `n` with all
    /// tables empty and nothing processed.
    pub fn new(n: usize, include_whitespace: bool) -> (r: Accumulator)
        requires
            1 <= n,
        ensures
            r.wf(),
            r.input() == Seq::<char>::empty(),
            r.n == n,
            r.include_ws == include_whitespace,
            forall|j: int|
                0 <= j < n ==> #[trigger] table_contents(r.tables@[j]) == empty_table(),
    {
        let mut tables: Vec<counter::Counter<String>> = Vec::new();
        let mut totals: Vec<usize> = Vec::new();
        let mut i: usize = 0;
        while i < n
            invariant
                i <= n,
                tables@.len() == i,
                totals@.len() == i,
                forall|j: int|
                    0 <= j < i ==> #[trigger] table_contents(tables@[j]) == empty_table(),
                forall|j: int| 0 <= j < i ==> #[trigger] totals@[j] as nat == 0,
            decreases n - i,
        {
            tables.push(table_new());
            totals.push(0);
            i += 1;
        }
        Accumulator {
            n,
            include_ws: include_whitespace,
            history: Vec::new(),
            tables,
            totals,
            processed: Ghost(Seq::empty()),
        }
    }

    /// Feed one decoded character: count every eligible window that ends at
    /// it, then push it onto the history, dropping the oldest entry once the
    /// history would exceed `n` characters.
    pub fn process(&mut self, c: char)
        requires
            old(self).wf(),
            old(self).input().len() < usize::MAX as nat,
        ensures
            final(self).wf(),
            final(self).n == old(self).n,
            final(self).include_ws == old(self).include_ws,
            final(self).input() == old(self).input().push(c),
    {
        let ghost s0 = self.processed@;
        let ghost s1 = s0.push(c);
        let ghost i0 = s0.len() as int;
        let ghost h0 = self.history@;
        let n = self.n;
        let iw = self.include_ws;

        let mut idx: usize = 0;  // the window length under consideration is idx + 1
        let mut stop = false;
        while idx < n && !stop
            invariant
                idx <= n,
                1 <= n,
                n == self.n,
                iw == self.include_ws,
                self.processed@ == s0,
                self.history@ == h0,
                s1 == s0.push(c),
                i0 == s0.len() as int,
                s0.len() < usize::MAX as nat,
                h0.len() == vstd::math::min(s0.len() as int, n as int),
                forall|j: int| 0 <= j < h0.len() ==> h0[j] == s0[s0.len() - 1 - j],
                self.tables@.len() == n,
                self.totals@.len() == n,
                forall|j: int|
                    0 <= j < idx ==> #[trigger] table_contents(self.tables@[j]) == count_map(
                        s1,
                        j + 1,
                        iw,
                    ),
                forall|j: int|
                    idx <= j < n ==> #[trigger] table_contents(self.tables@[j]) == count_map(
                        s0,
                        j + 1,
                        iw,
                    ),
                forall|j: int|
                    0 <= j < idx ==> #[trigger] self.totals@[j] as nat == eligible_total(
                        s1,
                        j + 1,
                        iw,
                    ),
                forall|j: int|
                    idx <= j < n ==> #[trigger] self.totals@[j] as nat == eligible_total(
                        s0,
                        j + 1,
                        iw,
                    ),
                stop ==> forall|k: int| idx < k <= n ==> !eligible(s1, i0, k, iw),
            decreases n - idx, (if stop { 0int } else { 1int }),
        {
            if self.history.len() < idx {
                stop = true;
                proof {
                    // The history mirrors min(|s0|, n) characters; as idx < n,
                    // a short history means s0 itself is shorter than idx.
                    assert(s0.len() < idx);
                    assert forall|k: int| idx < k <= n implies !eligible(s1, i0, k, iw) by {
                        assert(i0 + 1 - k < 0);
                    }
                }
            } else {
                // Build the candidate window: the idx most recent characters,
                // oldest first, then c.
                let mut gram: Vec<char> = Vec::new();
                let mut t: usize = idx;
                while t > 0
                    invariant
                        t <= idx,
                        idx <= self.history@.len(),
                        self.history@ == h0,
                        gram@.len() == idx - t,
                        forall|p: int|
                            0 <= p < idx - t ==> #[trigger] gram@[p] == h0[idx - 1 - p],
                    decreases t,
                {
                    t -= 1;
                    gram.push(self.history[t]);
                }
                gram.push(c);
                proof {
                    assert(s0.len() >= idx);
                    assert forall|p: int| 0 <= p < idx + 1 implies gram@[p] == s1[i0 - idx
                        + p] by {
                        if p < idx {
                            assert(gram@[p] == h0[idx - 1 - p]);
                            assert(h0[idx - 1 - p] == s0[s0.len() - 1 - (idx - 1 - p)]);
                        }
                    }
                    assert(gram@ =~= window_at(s1, i0, idx + 1));
                }
                // Whitespace policy: a window containing whitespace is not
                // counted unless whitespace is included.
                let mut has_ws = false;
                if !iw {
                    let mut p: usize = 0;
                    while p < gram.len()
                        invariant
                            p <= gram@.len(),
                            gram@ == window_at(s1, i0, idx + 1),
                            idx < n <= self.tables@.len(),
                            has_ws == exists|q: int| 0 <= q < p && is_wspace(gram@[q]),
                        decreases gram@.len() - p,
                    {
                        if char_is_ws(gram[p]) {
                            has_ws = true;
                        }
                        p += 1;
                    }
                }
                if has_ws {
                    stop = true;
                    proof {
                        let q = choose|q: int| 0 <= q < gram@.len() && is_wspace(gram@[q]);
                        let gq = i0 - idx + q;
                        assert(is_wspace(s1[gq]));
                        assert forall|k: int| idx < k <= n implies !eligible(s1, i0, k, iw) by {
                            if i0 + 1 - k >= 0 {
                                assert(i0 + 1 - k <= gq <= i0);
                                assert(!window_clean(s1, i0, k));
                            }
                        }
                    }
                } else {
                    proof {
                        assert(eligible(s1, i0, idx + 1, iw)) by {
                            if !iw {
                                assert forall|j: int| i0 - idx <= j <= i0 implies !is_wspace(
                                    s1[j],
                                ) by {
                                    assert(s1[j] == gram@[j - (i0 - idx)]);
                                }
                            }
                        }
                        // The count about to be bumped stays below usize::MAX:
                        // it is at most the number of eligible windows, which
                        // is at most the number of processed characters.
                        lemma_count_map_finite(s0, idx + 1, iw);
                        lemma_key_le_sum(count_map(s0, idx + 1, iw), gram@);
                        lemma_table_total(s0, idx + 1, iw);
                        lemma_eligible_total_le_len(s0, idx + 1, iw);
                        assert(key_count(count_map(s0, idx + 1, iw), gram@) < usize::MAX as nat);
                        assert(eligible_total(s0, idx + 1, iw) < usize::MAX as nat);
                        assert(table_contents(self.tables@[idx as int]) == count_map(
                            s0,
                            idx + 1,
                            iw,
                        ));
                    }
                    let tref = &mut self.tables[idx];
                    table_bump(tref, &gram);
                    let told = self.totals[idx];
                    self.totals.set(idx, told + 1);
                    proof {
                        lemma_count_map_step(s0, c, idx + 1, iw);
                        assert(table_contents(self.tables@[idx as int]) == count_map(
                            s1,
                            idx + 1,
                            iw,
                        ));
                        assert(self.totals@[idx as int] as nat == eligible_total(s1, idx + 1, iw));
                    }
                    idx += 1;
                }
            }
        }
        proof {
            assert forall|j: int| 0 <= j < n implies #[trigger] table_contents(self.tables@[j])
                == count_map(s1, j + 1, iw) by {
                if j >= idx {
                    assert(!eligible(s1, i0, j + 1, iw));
                    lemma_count_map_step(s0, c, j + 1, iw);
                }
            }
            assert forall|j: int| 0 <= j < n implies #[trigger] self.totals@[j] as nat
                == eligible_total(s1, j + 1, iw) by {
                if j >= idx {
                    assert(!eligible(s1, i0, j + 1, iw));
                    lemma_count_map_step(s0, c, j + 1, iw);
                }
            }
        }
        // Push c onto the history and cap the history at n entries.
        self.history.insert(0, c);
        if self.history.len() > n {
            self.history.truncate(n);
        }
        self.processed = Ghost(s1);
        proof {
            assert(self.history@.len() == vstd::math::min(s1.len() as int, n as int));
            assert forall|j: int| 0 <= j < self.history@.len() implies self.history@[j] == s1[
                s1.len() - 1 - j] by {
                if j > 0 {
                    assert(self.history@[j] == h0[j - 1]);
                }
            }
        }
    }

    /// Feed a whole sequence of decoded characters, in order.
    pub fn process_all(&mut self, cs: &Vec<char>)
        requires
            old(self).wf(),
            old(self).input().len() + cs@.len() <= usize::MAX as nat,
        ensures
            final(self).wf(),
            final(self).n == old(self).n,
            final(self).include_ws == old(self).include_ws,
            final(self).input() == old(self).input() + cs@,
    {
        let mut i: usize = 0;
        while i < cs.len()
            invariant
                i <= cs@.len(),
                self.wf(),
                self.n == old(self).n,
                self.include_ws == old(self).include_ws,
                self.input() == old(self).input() + cs@.take(i as int),
                self.input().len() + (cs@.len() - i) <= usize::MAX as nat,
            decreases cs@.len() - i,
        {
            self.process(cs[i]);
            proof {
                assert(old(self).input() + cs@.take(i + 1) =~= (old(self).input() + cs@.take(
                    i as int,
                )).push(cs@[i as int]));
            }
            i += 1;
        }
        proof {
            assert(cs@.take(cs@.len() as int) =~= cs@);
        }
    }

    /// The number of eligible windows of the full configured length seen so
    /// far: the sum of all counts in the full-length table.
    pub fn total(&self) -> (t: usize)
        requires
            self.wf(),
        ensures
            t as nat == eligible_total(self.input(), self.n as int, self.include_ws),
            t as nat == crate::model::map_sum(
                count_map(self.input(), self.n as int, self.include_ws),
            ),
    {
        proof {
            lemma_table_total(self.input(), self.n as int, self.include_ws);
        }
        self.totals[self.n - 1]
    }
}

} // verus!
