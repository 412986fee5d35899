//! Shared read-only tables and the normalization and filtering stages: the
//! lemma table maps surface forms to canonical lemmas, the junk set holds
//! stopwords to discard, and the loaders build both from dictionary lines.
use vstd::prelude::*;

use crate::tokenizer::{chars_of, lower_ascii, lower_seq, push_char};
pub use crate::tokenizer::find_words_in_file;

verus! {

/// The output format a finished table is written in.
#[derive(Clone, Copy, Debug, PartialEq, Eq, Structural)]
pub enum Output {
    Json,
    Txt,
    Csv,
}

/// How a format name parses: the ASCII-lowercased name must be one of
/// `json`, `txt` or `csv`.
pub open spec fn spec_parse_output(s: Seq<char>) -> Option<Output> {
    if lower_seq(s) == "json"@ {
        Some(Output::Json)
    } else if lower_seq(s) == "txt"@ {
        Some(Output::Txt)
    } else if lower_seq(s) == "csv"@ {
        Some(Output::Csv)
    } else {
        None
    }
}

impl Output {
    /// Parse a format name, case-insensitively; any other name is rejected.
    pub fn from_str(s: &str) -> (r: Option<Output>)
        ensures
            r == spec_parse_output(s@),
    {
        let low = lower_ascii(s);
        if low == "json".to_owned() {
            Some(Output::Json)
        } else if low == "txt".to_owned() {
            Some(Output::Txt)
        } else if low == "csv".to_owned() {
            Some(Output::Csv)
        } else {
            None
        }
    }
}

/// Configuration handed to every worker.
pub struct Options {
    pub output_type: Output,
    pub output_path: String,
    pub skip_junk_words: bool,
    pub skip_lemmanization: bool,
}

/// Mapping from surface-form token to canonical lemma. Pairs are kept in
/// insertion order and the latest insertion for a key wins.
pub struct LemmaTable {
    pairs: Vec<(String, String)>,
}

spec fn spec_lookup_pairs(pairs: Seq<(String, String)>, t: Seq<char>) -> Option<Seq<char>>
    decreases pairs.len(),
{
    if pairs.len() == 0 {
        None
    } else if pairs.last().0@ == t {
        Some(pairs.last().1@)
    } else {
        spec_lookup_pairs(pairs.drop_last(), t)
    }
}

impl LemmaTable {
    /// The canonical lemma recorded for `t`, if any.
    pub closed spec fn lookup(self, t: Seq<char>) -> Option<Seq<char>> {
        spec_lookup_pairs(self.pairs@, t)
    }

    /// An empty table: nothing is mapped.
    pub fn new() -> (r: LemmaTable)
        ensures
            forall|t: Seq<char>| r.lookup(t) is None,
    {
        LemmaTable { pairs: Vec::new() }
    }

    /// Record that `inflection` normalizes to `canonical`, overriding any
    /// earlier entry for the same inflection.
    pub fn insert(&mut self, inflection: String, canonical: String)
        ensures
            forall|t: Seq<char>|
                final(self).lookup(t) == if t == inflection@ {
                    Some(canonical@)
                } else {
                    old(self).lookup(t)
                },
    {
        let ghost prev = self.pairs@;
        self.pairs.push((inflection, canonical));
        proof {
            assert(self.pairs@.drop_last() =~= prev);
        }
    }

    /// Look a token up, returning its canonical lemma if one is recorded.
    pub fn get(&self, w: &String) -> (r: Option<&String>)
        ensures
            match r {
                Some(l) => self.lookup(w@) == Some(l@),
                None => self.lookup(w@) is None,
            },
    {
        let mut j = self.pairs.len();
        proof {
            assert(self.pairs@.take(j as int) =~= self.pairs@);
        }
        while j > 0
            invariant
                0 <= j <= self.pairs@.len(),
                spec_lookup_pairs(self.pairs@, w@) == spec_lookup_pairs(
                    self.pairs@.take(j as int),
                    w@,
                ),
            decreases j,
        {
            j = j - 1;
            if self.pairs[j].0 == *w {
                proof {
                    assert(self.pairs@.take(j + 1).last() == self.pairs@[j as int]);
                }
                return Some(&self.pairs[j].1);
            }
            proof {
                assert(self.pairs@.take(j + 1).last() == self.pairs@[j as int]);
                assert(self.pairs@.take(j + 1).drop_last() =~= self.pairs@.take(j as int));
            }
        }
        proof {
            assert(self.pairs@.take(0) =~= Seq::<(String, String)>::empty());
        }
        None
    }
}

/// What one token normalizes to: its recorded lemma, or itself.
pub open spec fn apply_lemma(table: LemmaTable, t: Seq<char>) -> Seq<char> {
    match table.lookup(t) {
        Some(l) => l,
        None => t,
    }
}

/// Normalization of a token list: order- and length-preserving, each token
/// replaced by its lemma when the table records one.
pub open spec fn normalize_spec(tokens: Seq<Seq<char>>, table: LemmaTable) -> Seq<Seq<char>> {
    tokens.map_values(|t: Seq<char>| apply_lemma(table, t))
}

/// Replace each token by its canonical lemma where the table records one;
/// tokens without an entry pass through unchanged.
pub fn lemmatization(v: &Vec<String>, lemma: &LemmaTable) -> (r: Vec<String>)
    ensures
        r.deep_view() == normalize_spec(v.deep_view(), *lemma),
{
    let mut r: Vec<String> = Vec::new();
    let n = v.len();
    let mut i: usize = 0;
    proof {
        assert(r.deep_view() =~= normalize_spec(v.deep_view().take(0), *lemma));
    }
    while i < n
        invariant
            0 <= i <= n,
            n == v@.len(),
            r.deep_view() == normalize_spec(v.deep_view().take(i as int), *lemma),
        decreases n - i,
    {
        let ghost prev = r.deep_view();
        match lemma.get(&v[i]) {
            Some(l) => {
                let w = l.clone();
                r.push(w);
            },
            None => {
                let w = v[i].clone();
                r.push(w);
            },
        }
        i = i + 1;
        proof {
            let dv = v.deep_view();
            assert(r.deep_view() =~= prev.push(apply_lemma(*lemma, dv[i - 1])));
            assert(normalize_spec(dv.take(i as int), *lemma) =~= normalize_spec(
                dv.take(i - 1),
                *lemma,
            ).push(apply_lemma(*lemma, dv[i - 1])));
        }
    }
    proof {
        assert(v.deep_view().take(n as int) =~= v.deep_view());
    }
    r
}

/// Normalization is idempotent: provided no lemma target is itself mapped to
/// a different lemma (the table is well-formed and acyclic), normalizing an
/// already normalized token list changes nothing.
pub proof fn lemma_normalization_idempotent(tokens: Seq<Seq<char>>, table: LemmaTable)
    requires
        forall|t: Seq<char>|
            (#[trigger] table.lookup(t)) is Some ==> (table.lookup(table.lookup(t)->Some_0)
                is None || table.lookup(table.lookup(t)->Some_0) == Some(
                table.lookup(t)->Some_0,
            )),
    ensures
        normalize_spec(normalize_spec(tokens, table), table) == normalize_spec(tokens, table),
{
    let once = normalize_spec(tokens, table);
    assert forall|i: int| 0 <= i < once.len() implies normalize_spec(once, table)[i]
        == once[i] by {
        let t = tokens[i];
        assert(once[i] == apply_lemma(table, t));
        assert(normalize_spec(once, table)[i] == apply_lemma(table, once[i]));
    }
    assert(normalize_spec(once, table) =~= once);
}

/// The set of junk (stop) words: tokens to discard regardless of frequency.
pub struct JunkSet {
    words: Vec<String>,
}

impl JunkSet {
    /// Whether `t` is a junk word.
    pub closed spec fn spec_contains(self, t: Seq<char>) -> bool {
        exists|i: int| 0 <= i < self.words@.len() && self.words@[i]@ == t
    }

    /// An empty set: nothing is junk.
    pub fn new() -> (r: JunkSet)
        ensures
            forall|t: Seq<char>| !r.spec_contains(t),
    {
        JunkSet { words: Vec::new() }
    }

    /// Membership test.
    pub fn contains(&self, w: &String) -> (r: bool)
        ensures
            r == self.spec_contains(w@),
    {
        let n = self.words.len();
        let mut i: usize = 0;
        while i < n
            invariant
                0 <= i <= n,
                n == self.words@.len(),
                forall|k: int| 0 <= k < i ==> self.words@[k]@ != w@,
            decreases n - i,
        {
            if self.words[i] == *w {
                return true;
            }
            i = i + 1;
        }
        false
    }
}

/// Filtering of a token list: a token is kept exactly when its lowercased
/// form is absent from the junk set; order is preserved.
pub open spec fn filter_junk_spec(tokens: Seq<Seq<char>>, junk: JunkSet) -> Seq<Seq<char>>
    decreases tokens.len(),
{
    if tokens.len() == 0 {
        Seq::empty()
    } else {
        filter_junk_spec(tokens.drop_last(), junk) + (if junk.spec_contains(
            lower_seq(tokens.last()),
        ) {
            Seq::empty()
        } else {
            seq![tokens.last()]
        })
    }
}

/// Retain each token whose lowercased form is not a junk word.
pub fn exclude_junk(v: &Vec<String>, h: &JunkSet) -> (r: Vec<String>)
    ensures
        r.deep_view() == filter_junk_spec(v.deep_view(), *h),
{
    let mut r: Vec<String> = Vec::new();
    let n = v.len();
    let mut i: usize = 0;
    proof {
        assert(r.deep_view() =~= filter_junk_spec(v.deep_view().take(0), *h));
    }
    while i < n
        invariant
            0 <= i <= n,
            n == v@.len(),
            r.deep_view() == filter_junk_spec(v.deep_view().take(i as int), *h),
        decreases n - i,
    {
        let ghost prev = r.deep_view();
        let low = lower_ascii(v[i].as_str());
        if !h.contains(&low) {
            let w = v[i].clone();
            r.push(w);
        }
        i = i + 1;
        proof {
            let dv = v.deep_view();
            assert(dv.take(i as int).drop_last() =~= dv.take(i - 1));
            assert(dv.take(i as int).last() == dv[i - 1]);
            if h.spec_contains(lower_seq(dv[i - 1])) {
                assert(r.deep_view() =~= prev + Seq::<Seq<char>>::empty());
            } else {
                assert(r.deep_view() =~= prev + seq![dv[i - 1]]);
            }
        }
    }
    proof {
        assert(v.deep_view().take(n as int) =~= v.deep_view());
    }
    r
}

/// Unicode white space, as splitting a dictionary line into fields sees it.
pub open spec fn is_space(c: char) -> bool {
    c == ' ' || ('\u{9}' <= c && c <= '\u{d}') || c == '\u{85}' || c == '\u{a0}' || c == '\u{1680}'
        || ('\u{2000}' <= c && c <= '\u{200a}') || c == '\u{2028}' || c == '\u{2029}'
        || c == '\u{202f}' || c == '\u{205f}' || c == '\u{3000}'
}

fn is_space_char(c: char) -> (r: bool)
    ensures
        r == is_space(c),
{
    c == ' ' || ('\u{9}' <= c && c <= '\u{d}') || c == '\u{85}' || c == '\u{a0}' || c == '\u{1680}'
        || ('\u{2000}' <= c && c <= '\u{200a}') || c == '\u{2028}' || c == '\u{2029}'
        || c == '\u{202f}' || c == '\u{205f}' || c == '\u{3000}'
}

/// Length of the maximal run of non-space characters at the head of `s`.
pub open spec fn field_run_len(s: Seq<char>) -> nat
    decreases s.len(),
{
    if s.len() == 0 || is_space(s[0]) {
        0
    } else {
        1 + field_run_len(s.drop_first())
    }
}

proof fn lemma_field_run_len(s: Seq<char>)
    ensures
        field_run_len(s) <= s.len(),
        forall|k: int| 0 <= k < field_run_len(s) ==> !is_space(s[k]),
        field_run_len(s) < s.len() ==> is_space(s[field_run_len(s) as int]),
    decreases s.len(),
{
    if s.len() > 0 && !is_space(s[0]) {
        lemma_field_run_len(s.drop_first());
        assert forall|k: int| 0 <= k < field_run_len(s) implies !is_space(s[k]) by {
            if k > 0 {
                assert(!is_space(s.drop_first()[k - 1]));
            }
        }
        if field_run_len(s) < s.len() {
            assert(s[field_run_len(s) as int] == s.drop_first()[field_run_len(
                s.drop_first(),
            ) as int]);
        }
    }
}

proof fn lemma_field_run_len_at(s: Seq<char>, m: int)
    requires
        0 <= m <= s.len(),
        forall|k: int| 0 <= k < m ==> !is_space(s[k]),
        m < s.len() ==> is_space(s[m]),
    ensures
        field_run_len(s) == m,
{
    lemma_field_run_len(s);
}

/// The white-space-separated fields of a line, in order.
pub open spec fn split_whitespace_spec(s: Seq<char>) -> Seq<Seq<char>>
    decreases s.len(),
    via split_whitespace_spec_decreases
{
    if s.len() == 0 {
        Seq::empty()
    } else if is_space(s[0]) {
        split_whitespace_spec(s.drop_first())
    } else {
        seq![s.take(field_run_len(s) as int)] + split_whitespace_spec(
            s.skip(field_run_len(s) as int),
        )
    }
}

#[via_fn]
proof fn split_whitespace_spec_decreases(s: Seq<char>) {
    if s.len() > 0 && !is_space(s[0]) {
        lemma_field_run_len(s);
    }
}

/// Split a line on white space into its maximal non-space runs.
pub fn split_whitespace(line: &str) -> (r: Vec<String>)
    ensures
        r.deep_view() == split_whitespace_spec(line@),
{
    let cs = chars_of(line);
    let ghost s = cs@;
    let n = cs.len();
    let mut out: Vec<String> = Vec::new();
    let mut i: usize = 0;
    proof {
        assert(s.skip(0) =~= s);
        assert(out.deep_view() =~= Seq::<Seq<char>>::empty());
        assert(out.deep_view() + split_whitespace_spec(s) =~= split_whitespace_spec(s));
    }
    while i < n
        invariant
            0 <= i <= n,
            n == s.len(),
            cs@ == s,
            out.deep_view() + split_whitespace_spec(s.skip(i as int)) == split_whitespace_spec(s),
        decreases n - i,
    {
        if is_space_char(cs[i]) {
            proof {
                assert(s.skip(i as int).drop_first() =~= s.skip(i + 1));
            }
            i = i + 1;
        } else {
            let mut j = i + 1;
            while j < n && !is_space_char(cs[j])
                invariant
                    i < j <= n,
                    n == s.len(),
                    cs@ == s,
                    forall|k: int| i <= k < j ==> !is_space(s[k]),
                decreases n - j,
            {
                j = j + 1;
            }
            proof {
                lemma_field_run_len_at(s.skip(i as int), j - i);
            }
            let mut tok = String::new();
            let mut k = i;
            while k < j
                invariant
                    i <= k <= j <= n,
                    n == s.len(),
                    cs@ == s,
                    tok@ == s.subrange(i as int, k as int),
                decreases j - k,
            {
                push_char(&mut tok, cs[k]);
                k = k + 1;
                proof {
                    assert(s.subrange(i as int, k as int) =~= s.subrange(i as int, k - 1).push(
                        s[k - 1],
                    ));
                }
            }
            let ghost prev = out.deep_view();
            let ghost tv = tok@;
            out.push(tok);
            proof {
                assert(out.deep_view() =~= prev.push(tv));
                assert(s.skip(i as int).take(j - i) =~= s.subrange(i as int, j as int));
                assert(s.skip(i as int).skip(j - i) =~= s.skip(j as int));
                assert(prev.push(tv) + split_whitespace_spec(s.skip(j as int)) =~= prev + (seq![tv]
                    + split_whitespace_spec(s.skip(j as int))));
            }
            i = j;
        }
    }
    proof {
        assert(s.skip(n as int) =~= Seq::<char>::empty());
        assert(out.deep_view() + Seq::<Seq<char>>::empty() =~= out.deep_view());
    }
    out
}

/// What one dictionary line contributes: a line `canonical inflection ...`
/// maps each of its inflections to the canonical first field; a line with
/// fewer than two fields contributes nothing.
pub open spec fn lemma_of_line(parts: Seq<Seq<char>>, t: Seq<char>) -> Option<Seq<char>> {
    if parts.len() >= 2 && (exists|k: int| 1 <= k < parts.len() && parts[k] == t) {
        Some(parts[0])
    } else {
        None
    }
}

/// What the whole dictionary records for `t`: the contribution of the latest
/// line that mentions `t` as an inflection.
pub open spec fn lemma_of_lines(lines: Seq<Seq<char>>, t: Seq<char>) -> Option<Seq<char>>
    decreases lines.len(),
{
    if lines.len() == 0 {
        None
    } else {
        match lemma_of_line(split_whitespace_spec(lines.last()), t) {
            Some(c) => Some(c),
            None => lemma_of_lines(lines.drop_last(), t),
        }
    }
}

/// Builds the lemma table by inverting the dictionary lines: each line reads
/// `canonical inflection1 inflection2 ...` and every inflection is mapped to
/// the line's canonical first field, later lines overriding earlier ones.
/// When lemmatization is to be skipped, an empty table is returned. Reading
/// the dictionary off disk is the caller's concern.
pub fn preload_lemma(preload: bool, lines: &Vec<String>) -> (r: LemmaTable)
    ensures
        preload ==> forall|t: Seq<char>| r.lookup(t) is None,
        !preload ==> forall|t: Seq<char>| r.lookup(t) == lemma_of_lines(lines.deep_view(), t),
{
    if preload {
        return LemmaTable::new();
    }
    let ghost lv = lines.deep_view();
    let mut table = LemmaTable::new();
    let n = lines.len();
    let mut i: usize = 0;
    proof {
        assert(lv.take(0) =~= Seq::<Seq<char>>::empty());
    }
    while i < n
        invariant
            0 <= i <= n,
            n == lv.len(),
            lv == lines.deep_view(),
            forall|t: Seq<char>| table.lookup(t) == lemma_of_lines(lv.take(i as int), t),
        decreases n - i,
    {
        let parts = split_whitespace(lines[i].as_str());
        let ghost pv = parts.deep_view();
        proof {
            assert(pv == split_whitespace_spec(lv[i as int]));
        }
        let m = parts.len();
        if m >= 2 {
            let canonical = parts[0].clone();
            let mut k: usize = 1;
            while k < m
                invariant
                    1 <= k <= m,
                    m == pv.len(),
                    pv == parts.deep_view(),
                    canonical@ == pv[0],
                    forall|t: Seq<char>|
                        table.lookup(t) == if exists|q: int| 1 <= q < k && pv[q] == t {
                            Some(pv[0])
                        } else {
                            lemma_of_lines(lv.take(i as int), t)
                        },
                decreases m - k,
            {
                let inflection = parts[k].clone();
                let target = canonical.clone();
                let ghost before = table;
                table.insert(inflection, target);
                k = k + 1;
                proof {
                    assert forall|t: Seq<char>|
                        table.lookup(t) == (if exists|q: int| 1 <= q < k && pv[q] == t {
                            Some(pv[0])
                        } else {
                            lemma_of_lines(lv.take(i as int), t)
                        }) by {
                        if t == pv[k - 1] {
                            assert(1 <= k - 1 < k && pv[k - 1] == t);
                        } else {
                            assert((exists|q: int| 1 <= q < k && pv[q] == t) == (exists|q: int|
                                1 <= q < k - 1 && pv[q] == t));
                        }
                    }
                }
            }
            i = i + 1;
            proof {
                assert forall|t: Seq<char>|
                    table.lookup(t) == lemma_of_lines(lv.take(i as int), t) by {
                    assert(lv.take(i as int).last() == lv[i - 1]);
                    assert(lv.take(i as int).drop_last() =~= lv.take(i - 1));
                }
            }
        } else {
            i = i + 1;
            proof {
                assert forall|t: Seq<char>|
                    table.lookup(t) == lemma_of_lines(lv.take(i as int), t) by {
                    assert(lv.take(i as int).last() == lv[i - 1]);
                    assert(lv.take(i as int).drop_last() =~= lv.take(i - 1));
                    assert(lemma_of_line(split_whitespace_spec(lv[i - 1]), t) is None);
                }
            }
        }
    }
    proof {
        assert(lv.take(n as int) =~= lv);
    }
    table
}

/// Builds the junk set from the stopword list's lines, one word per line, or
/// an empty set when junk filtering is to be skipped. Reading the list off
/// disk is the caller's concern.
pub fn preload_junk(preload: bool, lines: &Vec<String>) -> (r: JunkSet)
    ensures
        preload ==> forall|t: Seq<char>| !r.spec_contains(t),
        !preload ==> forall|t: Seq<char>|
            r.spec_contains(t) <==> exists|i: int| 0 <= i < lines@.len() && lines@[i]@ == t,
{
    if preload {
        JunkSet::new()
    } else {
        let words = lines.clone();
        let r = JunkSet { words };
        proof {
            assert forall|t: Seq<char>|
                r.spec_contains(t) <==> (exists|i: int|
                    0 <= i < lines@.len() && lines@[i]@ == t) by {
                if r.spec_contains(t) {
                    let i = choose|i: int| 0 <= i < r.words@.len() && r.words@[i]@ == t;
                    assert(cloned::<String>(lines@[i], r.words@[i]));
                    assert(lines@[i]@ == t);
                }
                if exists|i: int| 0 <= i < lines@.len() && lines@[i]@ == t {
                    let i = choose|i: int| 0 <= i < lines@.len() && lines@[i]@ == t;
                    assert(cloned::<String>(lines@[i], r.words@[i]));
                    assert(r.words@[i]@ == t);
                }
            }
        }
        r
    }
}

} // verus!
