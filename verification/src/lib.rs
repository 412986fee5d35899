//! Term-frequency statistics over text files: tokenization, normalization
//! through a lemma table, junk-word filtering, and aggregation of occurrence
//! counts into per-file or combined frequency tables.
//!
//! Percentages are derived values: an entry's share of the table is the exact
//! rational `100 * count / total`, recomputed from the stored counts rather
//! than stored alongside them, so that they always sum to exactly one
//! hundred percent.
use vstd::prelude::*;

pub mod counts;
pub mod helpers;
pub mod process;
pub mod tokenizer;

use crate::counts::count_in;

verus! {

/// No two entries share a token.
pub open spec fn keys_unique(entries: Seq<(String, usize)>) -> bool {
    forall|i: int, j: int| 0 <= i < j < entries.len() ==> entries[i].0@ != entries[j].0@
}

/// Whether some entry holds the token `t`.
pub open spec fn has_key(entries: Seq<(String, usize)>, t: Seq<char>) -> bool {
    exists|k: int| 0 <= k < entries.len() && entries[k].0@ == t
}

/// The count recorded for `t`: that of the first entry holding `t`, or zero.
pub open spec fn entry_count(entries: Seq<(String, usize)>, t: Seq<char>) -> nat
    decreases entries.len(),
{
    if entries.len() == 0 {
        0
    } else if entries[0].0@ == t {
        entries[0].1 as nat
    } else {
        entry_count(entries.drop_first(), t)
    }
}

/// The sum of all recorded counts.
pub open spec fn sum_counts(entries: Seq<(String, usize)>) -> nat
    decreases entries.len(),
{
    if entries.len() == 0 {
        0
    } else {
        entries[0].1 as nat + sum_counts(entries.drop_first())
    }
}

/// The sum of the entries' percentage numerators: each entry's exact
/// percentage of the table is the rational `100 * count / total`, so this sum
/// over the common denominator `total` decides what the percentages add up to.
pub open spec fn sum_percent_numerators(entries: Seq<(String, usize)>) -> nat
    decreases entries.len(),
{
    if entries.len() == 0 {
        0
    } else {
        100 * (entries[0].1 as nat) + sum_percent_numerators(entries.drop_first())
    }
}

proof fn lemma_entry_count_push(entries: Seq<(String, usize)>, e: (String, usize), t: Seq<char>)
    ensures
        entry_count(entries.push(e), t) == if has_key(entries, t) {
            entry_count(entries, t)
        } else if e.0@ == t {
            e.1 as nat
        } else {
            0nat
        },
    decreases entries.len(),
{
    reveal_with_fuel(entry_count, 2);
    if entries.len() == 0 {
        assert(entries.push(e)[0] == e);
        assert(entries.push(e).drop_first() =~= Seq::<(String, usize)>::empty());
        assert(!has_key(entries, t));
    } else {
        assert(entries.push(e)[0] == entries[0]);
        assert(entries.push(e).drop_first() =~= entries.drop_first().push(e));
        lemma_entry_count_push(entries.drop_first(), e, t);
        if entries[0].0@ != t {
            assert(has_key(entries, t) == has_key(entries.drop_first(), t)) by {
                if has_key(entries, t) {
                    let k = choose|k: int|
                        0 <= k < entries.len() && entries[k].0@ == t;
                    assert(entries.drop_first()[k - 1].0@ == t);
                }
                if has_key(entries.drop_first(), t) {
                    let k = choose|k: int|
                        0 <= k < entries.drop_first().len() && entries.drop_first()[k].0@ == t;
                    assert(entries[k + 1].0@ == t);
                }
            }
        }
    }
}

proof fn lemma_entry_count_absent(entries: Seq<(String, usize)>, t: Seq<char>)
    requires
        !has_key(entries, t),
    ensures
        entry_count(entries, t) == 0,
    decreases entries.len(),
{
    if entries.len() > 0 {
        assert(entries[0].0@ != t);
        assert forall|k: int|
            0 <= k < entries.drop_first().len() implies entries.drop_first()[k].0@ != t by {
            assert(entries[k + 1].0@ != t);
        }
        lemma_entry_count_absent(entries.drop_first(), t);
    }
}

proof fn lemma_entry_count_first(entries: Seq<(String, usize)>, j: int)
    requires
        0 <= j < entries.len(),
        forall|k: int| 0 <= k < j ==> entries[k].0@ != entries[j].0@,
    ensures
        entry_count(entries, entries[j].0@) == entries[j].1 as nat,
    decreases entries.len(),
{
    if j > 0 {
        assert forall|k: int|
            0 <= k < j - 1 implies (#[trigger] entries.drop_first()[k]).0@ != entries.drop_first()[j
            - 1].0@ by {
            assert(entries.drop_first()[k] == entries[k + 1]);
        }
        lemma_entry_count_first(entries.drop_first(), j - 1);
    }
}

proof fn lemma_entry_count_update(
    entries: Seq<(String, usize)>,
    j: int,
    c: usize,
    t: Seq<char>,
)
    requires
        0 <= j < entries.len(),
        forall|k: int| 0 <= k < j ==> entries[k].0@ != entries[j].0@,
    ensures
        entry_count(entries.update(j, (entries[j].0, c)), t) == if t == entries[j].0@ {
            c as nat
        } else {
            entry_count(entries, t)
        },
    decreases entries.len(),
{
    let updated = entries.update(j, (entries[j].0, c));
    if j == 0 {
        assert(updated[0] == (entries[0].0, c));
        assert(updated.drop_first() =~= entries.drop_first());
    } else {
        assert(updated[0] == entries[0]);
        assert(updated.drop_first() =~= entries.drop_first().update(j - 1, (entries[j].0, c)));
        assert(entries.drop_first()[j - 1] == entries[j]);
        assert forall|k: int|
            0 <= k < j - 1 implies (#[trigger] entries.drop_first()[k]).0@ != entries.drop_first()[j
            - 1].0@ by {
            assert(entries.drop_first()[k] == entries[k + 1]);
        }
        lemma_entry_count_update(entries.drop_first(), j - 1, c, t);
    }
}

proof fn lemma_sum_push(entries: Seq<(String, usize)>, e: (String, usize))
    ensures
        sum_counts(entries.push(e)) == sum_counts(entries) + e.1,
    decreases entries.len(),
{
    reveal_with_fuel(sum_counts, 2);
    if entries.len() == 0 {
        assert(entries.push(e)[0] == e);
        assert(entries.push(e).drop_first() =~= Seq::<(String, usize)>::empty());
    } else {
        assert(entries.push(e)[0] == entries[0]);
        assert(entries.push(e).drop_first() =~= entries.drop_first().push(e));
        lemma_sum_push(entries.drop_first(), e);
    }
}

proof fn lemma_sum_update(entries: Seq<(String, usize)>, j: int, c: usize)
    requires
        0 <= j < entries.len(),
    ensures
        sum_counts(entries.update(j, (entries[j].0, c))) == sum_counts(entries) - entries[j].1
            + c,
    decreases entries.len(),
{
    let updated = entries.update(j, (entries[j].0, c));
    if j == 0 {
        assert(updated[0] == (entries[0].0, c));
        assert(updated.drop_first() =~= entries.drop_first());
    } else {
        assert(updated[0] == entries[0]);
        assert(updated.drop_first() =~= entries.drop_first().update(j - 1, (entries[j].0, c)));
        assert(entries.drop_first()[j - 1] == entries[j]);
        lemma_sum_update(entries.drop_first(), j - 1, c);
    }
}

proof fn lemma_elem_le_sum(entries: Seq<(String, usize)>, j: int)
    requires
        0 <= j < entries.len(),
    ensures
        entries[j].1 <= sum_counts(entries),
    decreases entries.len(),
{
    if j > 0 {
        assert(entries.drop_first()[j - 1] == entries[j]);
        lemma_elem_le_sum(entries.drop_first(), j - 1);
    }
}

proof fn lemma_sum_take_le(entries: Seq<(String, usize)>, j: int)
    requires
        0 <= j <= entries.len(),
    ensures
        sum_counts(entries.take(j)) <= sum_counts(entries),
    decreases entries.len() - j,
{
    if j == entries.len() {
        assert(entries.take(j) =~= entries);
    } else {
        assert(entries.take(j + 1) =~= entries.take(j).push(entries[j]));
        lemma_sum_push(entries.take(j), entries[j]);
        lemma_sum_take_le(entries, j + 1);
    }
}

proof fn lemma_sum_percent_numerators(entries: Seq<(String, usize)>)
    ensures
        sum_percent_numerators(entries) == 100 * sum_counts(entries),
    decreases entries.len(),
{
    if entries.len() > 0 {
        lemma_sum_percent_numerators(entries.drop_first());
    }
}

/// A frequency table: per-token occurrence counts for one file, or for a
/// whole file set in combined mode.
pub struct Stats {
    /// Display identifier: the source file's base name, or `total` for the
    /// combined table.
    pub file_name: String,
    unique: usize,
    total: usize,
    term_frequency: Vec<(String, usize)>,
}

impl Stats {
    /// The table's entries, in insertion order.
    pub closed spec fn entries(self) -> Seq<(String, usize)> {
        self.term_frequency@
    }

    /// The count recorded for the token `t` (zero when absent).
    pub closed spec fn count(self, t: Seq<char>) -> nat {
        entry_count(self.term_frequency@, t)
    }

    /// The table's display identifier.
    pub closed spec fn spec_file_name(self) -> Seq<char> {
        self.file_name@
    }

    /// The sum of all counts, as stored.
    pub closed spec fn spec_total(self) -> nat {
        self.total as nat
    }

    /// The number of distinct tokens, as stored.
    pub closed spec fn spec_unique(self) -> nat {
        self.unique as nat
    }

    /// Internal consistency: entries hold distinct tokens with positive
    /// counts, `unique` is the number of entries, and `total` is the sum of
    /// the counts, with no constant offset applied.
    pub closed spec fn wf(self) -> bool {
        &&& keys_unique(self.term_frequency@)
        &&& self.unique == self.term_frequency@.len()
        &&& self.total == sum_counts(self.term_frequency@)
        &&& forall|k: int| 0 <= k < self.term_frequency@.len() ==> self.term_frequency@[k].1 >= 1
    }

    /// Build a per-file table from a file's final token list: each token's
    /// count is its number of occurrences, and the total is the list's
    /// length, which is also the percentage basis.
    pub fn new(words: &Vec<String>, file_name: String) -> (r: Stats)
        ensures
            r.wf(),
            r.spec_file_name() == file_name@,
            r.spec_total() == words@.len(),
            r.spec_unique() == r.entries().len(),
            forall|t: Seq<char>| r.count(t) == count_in(words.deep_view(), t),
    {
        let total = words.len();
        let mut term_frequency: Vec<(String, usize)> = Vec::new();
        proof {
            assert(sum_counts(term_frequency@) == 0);
            assert(entry_count(term_frequency@, Seq::<char>::empty()) == 0);
        }
        tally(&mut term_frequency, words);
        let unique = term_frequency.len();
        Stats { file_name, unique, total, term_frequency }
    }

    /// An empty combined table, named `total`.
    pub fn new_total() -> (r: Stats)
        ensures
            r.wf(),
            r.spec_file_name() == "total"@,
            r.spec_total() == 0,
            r.spec_unique() == 0,
            forall|t: Seq<char>| r.count(t) == 0,
    {
        Stats {
            file_name: "total".to_owned(),
            unique: 0,
            total: 0,
            term_frequency: Vec::new(),
        }
    }

    /// Fold a batch of tokens into the table: every token's count rises by
    /// its number of occurrences in the batch, new tokens enter at their
    /// occurrence count, and the derived fields are recomputed.
    pub fn extend(&mut self, words: &Vec<String>)
        requires
            old(self).wf(),
            old(self).spec_total() + words@.len() <= usize::MAX,
        ensures
            final(self).wf(),
            final(self).spec_file_name() == old(self).spec_file_name(),
            final(self).spec_total() == old(self).spec_total() + words@.len(),
            final(self).spec_unique() == final(self).entries().len(),
            forall|t: Seq<char>|
                final(self).count(t) == old(self).count(t) + count_in(words.deep_view(), t),
    {
        tally(&mut self.term_frequency, words);
        self.recalculate();
    }

    /// Recompute the derived fields from the entries: `unique` is the number
    /// of entries and `total` the exact sum of the counts; no constant
    /// offset is applied to the total.
    fn recalculate(&mut self)
        requires
            sum_counts(old(self).term_frequency@) <= usize::MAX,
        ensures
            final(self).term_frequency == old(self).term_frequency,
            final(self).file_name == old(self).file_name,
            final(self).total == sum_counts(old(self).term_frequency@),
            final(self).unique == old(self).term_frequency@.len(),
    {
        let n = self.term_frequency.len();
        let mut total: usize = 0;
        let mut j: usize = 0;
        proof {
            assert(sum_counts(self.term_frequency@.take(0)) == 0);
        }
        while j < n
            invariant
                0 <= j <= n,
                n == self.term_frequency@.len(),
                sum_counts(self.term_frequency@) <= usize::MAX,
                total == sum_counts(self.term_frequency@.take(j as int)),
            decreases n - j,
        {
            proof {
                assert(self.term_frequency@.take(j + 1) =~= self.term_frequency@.take(
                    j as int,
                ).push(self.term_frequency@[j as int]));
                lemma_sum_push(self.term_frequency@.take(j as int), self.term_frequency@[j as int]);
                lemma_sum_take_le(self.term_frequency@, j + 1);
            }
            total = total + self.term_frequency[j].1;
            j = j + 1;
        }
        proof {
            assert(self.term_frequency@.take(n as int) =~= self.term_frequency@);
        }
        self.total = total;
        self.unique = self.term_frequency.len();
    }

    /// The count recorded for a word, zero when the word is absent.
    pub fn count_of(&self, w: &String) -> (r: usize)
        ensures
            r as nat == self.count(w@),
    {
        match find_entry(&self.term_frequency, w) {
            Some(j) => {
                proof {
                    lemma_entry_count_first(self.term_frequency@, j as int);
                }
                self.term_frequency[j].1
            },
            None => {
                proof {
                    lemma_entry_count_absent(self.term_frequency@, w@);
                }
                0
            },
        }
    }

    /// The number of distinct tokens in the table.
    pub fn unique(&self) -> (r: usize)
        ensures
            r == self.spec_unique(),
    {
        self.unique
    }

    /// The sum of all counts in the table.
    pub fn total(&self) -> (r: usize)
        ensures
            r == self.spec_total(),
    {
        self.total
    }

    /// The table's entries: each distinct token with its count.
    pub fn term_frequency(&self) -> (r: &Vec<(String, usize)>)
        ensures
            r@ == self.entries(),
    {
        &self.term_frequency
    }

    /// Percentage sums: in a well-formed table the counts add up to the
    /// total, and the entries' exact percentages, each the rational
    /// `100 * count / total`, add up to exactly one hundred percent: over
    /// the common denominator `total`, their numerators sum to `100 * total`.
    pub proof fn lemma_percentage_sum(self)
        requires
            self.wf(),
        ensures
            sum_counts(self.entries()) == self.spec_total(),
            sum_percent_numerators(self.entries()) == 100 * self.spec_total(),
    {
        lemma_sum_percent_numerators(self.term_frequency@);
    }
}

/// The exact percentage `100 * count / total`, scaled by one hundred to
/// hundredths of a percent and rounded down; zero when the table is empty.
pub open spec fn spec_percent_x100(count: nat, total: nat) -> nat {
    if total == 0 {
        0
    } else {
        count * 10000 / total
    }
}

/// A count's share of a total, in hundredths of a percent, rounded down.
pub fn percent_x100(count: usize, total: usize) -> (r: u64)
    requires
        count <= total,
    ensures
        r == spec_percent_x100(count as nat, total as nat),
        r <= 10000,
{
    if total == 0 {
        0
    } else {
        let num = (count as u128) * 10000;
        let q = num / (total as u128);
        proof {
            assert((count as int) * 10000 <= (total as int) * 10000) by (nonlinear_arith)
                requires
                    count <= total,
            ;
            vstd::arithmetic::div_mod::lemma_div_is_ordered(
                (count as int) * 10000,
                (total as int) * 10000,
                total as int,
            );
            vstd::arithmetic::div_mod::lemma_div_multiples_vanish(10000, total as int);
        }
        q as u64
    }
}

/// Record a batch of words into an entry list: each word's entry count rises
/// by its number of occurrences in the batch.
fn tally(term_frequency: &mut Vec<(String, usize)>, words: &Vec<String>)
    requires
        keys_unique(old(term_frequency)@),
        forall|k: int| 0 <= k < old(term_frequency)@.len() ==> old(term_frequency)@[k].1 >= 1,
        sum_counts(old(term_frequency)@) + words@.len() <= usize::MAX,
    ensures
        keys_unique(final(term_frequency)@),
        forall|k: int| 0 <= k < final(term_frequency)@.len() ==> final(term_frequency)@[k].1 >= 1,
        sum_counts(final(term_frequency)@) == sum_counts(old(term_frequency)@) + words@.len(),
        forall|t: Seq<char>|
            entry_count(final(term_frequency)@, t) == entry_count(old(term_frequency)@, t)
                + count_in(words.deep_view(), t),
{
    let ghost wv = words.deep_view();
    let n = words.len();
    let mut i: usize = 0;
    proof {
        assert forall|t: Seq<char>| count_in(wv.take(0), t) == 0 by {
            assert(wv.take(0) =~= Seq::<Seq<char>>::empty());
        }
    }
    while i < n
        invariant
            0 <= i <= n,
            n == wv.len(),
            wv == words.deep_view(),
            keys_unique(term_frequency@),
            forall|k: int| 0 <= k < term_frequency@.len() ==> term_frequency@[k].1 >= 1,
            sum_counts(term_frequency@) == sum_counts(old(term_frequency)@) + i,
            sum_counts(old(term_frequency)@) + n <= usize::MAX,
            forall|t: Seq<char>|
                entry_count(term_frequency@, t) == entry_count(old(term_frequency)@, t)
                    + count_in(wv.take(i as int), t),
        decreases n - i,
    {
        let ghost prev = term_frequency@;
        let w = &words[i];
        match find_entry(term_frequency, w) {
            Some(j) => {
                proof {
                    lemma_elem_le_sum(prev, j as int);
                }
                let c = term_frequency[j].1;
                let e = term_frequency.remove(j);
                term_frequency.insert(j, (e.0, c + 1));
                proof {
                    assert(wv[i as int] == words@[i as int]@);
                    assert(prev[j as int].0@ == wv[i as int]);
                    assert(term_frequency@ =~= prev.update(j as int, (prev[j as int].0, (c
                        + 1) as usize)));
                    lemma_sum_update(prev, j as int, (c + 1) as usize);
                    assert forall|t: Seq<char>|
                        entry_count(term_frequency@, t) == entry_count(old(term_frequency)@, t)
                            + count_in(wv.take(i + 1), t) by {
                        lemma_entry_count_update(prev, j as int, (c + 1) as usize, t);
                        assert(wv.take(i + 1) =~= wv.take(i as int).push(wv[i as int]));
                        crate::counts::lemma_count_in_push(wv.take(i as int), wv[i as int], t);
                        if t == prev[j as int].0@ {
                            lemma_entry_count_first(prev, j as int);
                        }
                    }
                }
            },
            None => {
                let key = w.clone();
                term_frequency.push((key, 1));
                proof {
                    assert(term_frequency@ =~= prev.push((term_frequency@.last().0, 1usize)));
                    assert(term_frequency@.last().0@ == wv[i as int]);
                    lemma_sum_push(prev, term_frequency@.last());
                    assert(keys_unique(term_frequency@)) by {
                        assert forall|a: int, b: int|
                            0 <= a < b < term_frequency@.len() implies term_frequency@[a].0@
                            != term_frequency@[b].0@ by {
                            if b == term_frequency@.len() - 1 {
                                assert(prev[a].0@ != wv[i as int]);
                            }
                        }
                    }
                    assert forall|t: Seq<char>|
                        entry_count(term_frequency@, t) == entry_count(old(term_frequency)@, t)
                            + count_in(wv.take(i + 1), t) by {
                        lemma_entry_count_push(prev, term_frequency@.last(), t);
                        assert(wv.take(i + 1) =~= wv.take(i as int).push(wv[i as int]));
                        crate::counts::lemma_count_in_push(wv.take(i as int), wv[i as int], t);
                        if !has_key(prev, t) {
                            lemma_entry_count_absent(prev, t);
                        }
                    }
                }
            },
        }
        i = i + 1;
    }
    proof {
        assert(wv.take(n as int) =~= wv);
    }
}

/// Index of the first entry holding the word `w`, if any.
fn find_entry(entries: &Vec<(String, usize)>, w: &String) -> (r: Option<usize>)
    ensures
        match r {
            Some(j) => 0 <= j < entries@.len() && entries@[j as int].0@ == w@ && (forall|k: int|
                0 <= k < j ==> entries@[k].0@ != w@),
            None => !has_key(entries@, w@),
        },
{
    let n = entries.len();
    let mut j: usize = 0;
    while j < n
        invariant
            0 <= j <= n,
            n == entries@.len(),
            forall|k: int| 0 <= k < j ==> entries@[k].0@ != w@,
        decreases n - j,
    {
        if entries[j].0 == *w {
            return Some(j);
        }
        j = j + 1;
    }
    None
}

} // verus!
