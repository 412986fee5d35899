//! The aggregation pipeline: per file, tokenize, normalize, filter; then
//! either one table per file or one combined table over the whole set.
use vstd::prelude::*;

use crate::Stats;
use crate::counts::count_in;
use crate::helpers::{
    JunkSet, LemmaTable, Options, exclude_junk, filter_junk_spec, lemmatization, normalize_spec,
};
use crate::tokenizer::{find_words_in_file, tokenize_lines_spec};

verus! {

/// Why a file yields no table.
#[derive(Clone, Copy, Debug, PartialEq, Eq, Structural)]
pub enum ProcessError {
    /// The file's token list is empty after normalization and filtering;
    /// an unreadable file is handed in as zero lines and reports the same.
    Empty,
}

/// The fixed per-file pipeline: tokenize all lines in order, then normalize
/// unless lemmatization is skipped, then filter unless junk removal is
/// skipped — in exactly that order.
pub open spec fn pipeline_spec(
    lines: Seq<Seq<char>>,
    skip_lemmanization: bool,
    skip_junk_words: bool,
    lemma: LemmaTable,
    junk: JunkSet,
) -> Seq<Seq<char>> {
    let tokens = tokenize_lines_spec(lines);
    let normalized = if skip_lemmanization {
        tokens
    } else {
        normalize_spec(tokens, lemma)
    };
    if skip_junk_words {
        normalized
    } else {
        filter_junk_spec(normalized, junk)
    }
}

/// Run the per-file pipeline over a file's lines: the result is the file's
/// final token list, or `Empty` exactly when that list has no tokens.
pub fn file(lines: &Vec<String>, ops: &Options, lemma: &LemmaTable, junk: &JunkSet) -> (r: Result<
    Vec<String>,
    ProcessError,
>)
    ensures
        ({
            let expected = pipeline_spec(
                lines.deep_view(),
                ops.skip_lemmanization,
                ops.skip_junk_words,
                *lemma,
                *junk,
            );
            match r {
                Ok(words) => expected.len() > 0 && words.deep_view() == expected,
                Err(e) => expected.len() == 0 && e == ProcessError::Empty,
            }
        }),
{
    let mut words = find_words_in_file(lines);
    if !ops.skip_lemmanization {
        words = lemmatization(&words, lemma);
    }
    if !ops.skip_junk_words {
        words = exclude_junk(&words, junk);
    }
    if words.is_empty() {
        Err(ProcessError::Empty)
    } else {
        Ok(words)
    }
}

/// Empty-input handling: a file none of whose lines holds an ASCII letter
/// produces an empty token list whatever the options and tables, so `file`
/// reports it as skipped rather than yielding a table.
pub proof fn lemma_no_letters_file_skipped(
    lines: Seq<Seq<char>>,
    skip_lemmanization: bool,
    skip_junk_words: bool,
    lemma: LemmaTable,
    junk: JunkSet,
)
    requires
        forall|i: int, k: int|
            0 <= i < lines.len() && 0 <= k < lines[i].len() ==> !crate::tokenizer::is_letter(
                #[trigger] lines[i][k],
            ),
    ensures
        pipeline_spec(lines, skip_lemmanization, skip_junk_words, lemma, junk).len() == 0,
{
    crate::tokenizer::lemma_no_letters_no_file_tokens(lines);
    let tokens = tokenize_lines_spec(lines);
    let normalized = if skip_lemmanization {
        tokens
    } else {
        normalize_spec(tokens, lemma)
    };
    assert(normalized.len() == 0);
    assert(filter_junk_spec(normalized, junk).len() == 0);
}

/// The indexes of the files whose pipeline output is non-empty, in order:
/// exactly these files yield a table in per-file mode.
pub open spec fn kept_indexes(
    files: Seq<(String, Vec<String>)>,
    skip_lemmanization: bool,
    skip_junk_words: bool,
    lemma: LemmaTable,
    junk: JunkSet,
) -> Seq<int>
    decreases files.len(),
{
    if files.len() == 0 {
        Seq::empty()
    } else {
        let prefix = kept_indexes(
            files.drop_last(),
            skip_lemmanization,
            skip_junk_words,
            lemma,
            junk,
        );
        if pipeline_spec(
            files.last().1.deep_view(),
            skip_lemmanization,
            skip_junk_words,
            lemma,
            junk,
        ).len() > 0 {
            prefix.push(files.len() - 1)
        } else {
            prefix
        }
    }
}

/// Per-file mode: each file is run through the pipeline and yields its own
/// table; files whose token list comes out empty are skipped. Each input is
/// a pair of the file's display name and its lines.
pub fn for_each(
    files: &Vec<(String, Vec<String>)>,
    ops: &Options,
    lemma: &LemmaTable,
    junk: &JunkSet,
) -> (r: Vec<Stats>)
    ensures
        ({
            let kept = kept_indexes(
                files@,
                ops.skip_lemmanization,
                ops.skip_junk_words,
                *lemma,
                *junk,
            );
            &&& r@.len() == kept.len()
            &&& forall|k: int|
                0 <= k < kept.len() ==> {
                    let i = #[trigger] kept[k];
                    let expected = pipeline_spec(
                        files@[i].1.deep_view(),
                        ops.skip_lemmanization,
                        ops.skip_junk_words,
                        *lemma,
                        *junk,
                    );
                    &&& 0 <= i < files@.len()
                    &&& r@[k].wf()
                    &&& r@[k].spec_file_name() == files@[i].0@
                    &&& r@[k].spec_total() == expected.len()
                    &&& forall|t: Seq<char>| r@[k].count(t) == count_in(expected, t)
                }
        }),
{
    let ghost sl = ops.skip_lemmanization;
    let ghost sj = ops.skip_junk_words;
    let mut r: Vec<Stats> = Vec::new();
    let n = files.len();
    let mut i: usize = 0;
    proof {
        assert(files@.take(0) =~= Seq::<(String, Vec<String>)>::empty());
    }
    while i < n
        invariant
            0 <= i <= n,
            n == files@.len(),
            sl == ops.skip_lemmanization,
            sj == ops.skip_junk_words,
            ({
                let kept = kept_indexes(files@.take(i as int), sl, sj, *lemma, *junk);
                &&& r@.len() == kept.len()
                &&& forall|k: int|
                    0 <= k < kept.len() ==> {
                        let fi = #[trigger] kept[k];
                        let expected = pipeline_spec(
                            files@[fi].1.deep_view(),
                            sl,
                            sj,
                            *lemma,
                            *junk,
                        );
                        &&& 0 <= fi < files@.len()
                        &&& r@[k].wf()
                        &&& r@[k].spec_file_name() == files@[fi].0@
                        &&& r@[k].spec_total() == expected.len()
                        &&& forall|t: Seq<char>| r@[k].count(t) == count_in(expected, t)
                    }
            }),
        decreases n - i,
    {
        let ghost prev_kept = kept_indexes(files@.take(i as int), sl, sj, *lemma, *junk);
        proof {
            assert(files@.take(i + 1).drop_last() =~= files@.take(i as int));
            assert(files@.take(i + 1).last() == files@[i as int]);
        }
        let f = &files[i];
        match file(&f.1, ops, lemma, junk) {
            Ok(words) => {
                let name = f.0.clone();
                let st = Stats::new(&words, name);
                r.push(st);
                proof {
                    let kept = kept_indexes(files@.take(i + 1), sl, sj, *lemma, *junk);
                    assert(kept =~= prev_kept.push(i as int));
                    assert forall|k: int| 0 <= k < kept.len() implies #[trigger] kept[k] == if k
                        < prev_kept.len() {
                        prev_kept[k]
                    } else {
                        i as int
                    } by {}
                }
            },
            Err(_) => {
                proof {
                    let kept = kept_indexes(files@.take(i + 1), sl, sj, *lemma, *junk);
                    assert(kept =~= prev_kept);
                }
            },
        }
        i = i + 1;
    }
    proof {
        assert(files@.take(n as int) =~= files@);
    }
    r
}

/// All tokens of the file set after the per-file pipeline, in file order;
/// files whose pipeline output is empty contribute nothing.
pub open spec fn combined_tokens(
    files: Seq<(String, Vec<String>)>,
    skip_lemmanization: bool,
    skip_junk_words: bool,
    lemma: LemmaTable,
    junk: JunkSet,
) -> Seq<Seq<char>>
    decreases files.len(),
{
    if files.len() == 0 {
        Seq::empty()
    } else {
        combined_tokens(files.drop_last(), skip_lemmanization, skip_junk_words, lemma, junk)
            + pipeline_spec(
            files.last().1.deep_view(),
            skip_lemmanization,
            skip_junk_words,
            lemma,
            junk,
        )
    }
}

/// Sum over the files of a token's occurrences in each file's pipeline
/// output.
pub open spec fn file_count_sum(
    files: Seq<(String, Vec<String>)>,
    skip_lemmanization: bool,
    skip_junk_words: bool,
    lemma: LemmaTable,
    junk: JunkSet,
    t: Seq<char>,
) -> nat
    decreases files.len(),
{
    if files.len() == 0 {
        0
    } else {
        file_count_sum(files.drop_last(), skip_lemmanization, skip_junk_words, lemma, junk, t)
            + count_in(
            pipeline_spec(
                files.last().1.deep_view(),
                skip_lemmanization,
                skip_junk_words,
                lemma,
                junk,
            ),
            t,
        )
    }
}

/// Commutativity of aggregation, at the file level: in combined mode every
/// token's count over the whole set is the sum, over the files, of its
/// per-file occurrences — a quantity independent of the order in which the
/// workers' batches are merged.
pub proof fn lemma_combined_count_is_per_file_sum(
    files: Seq<(String, Vec<String>)>,
    skip_lemmanization: bool,
    skip_junk_words: bool,
    lemma: LemmaTable,
    junk: JunkSet,
    t: Seq<char>,
)
    ensures
        count_in(
            combined_tokens(files, skip_lemmanization, skip_junk_words, lemma, junk),
            t,
        ) == file_count_sum(files, skip_lemmanization, skip_junk_words, lemma, junk, t),
    decreases files.len(),
{
    if files.len() > 0 {
        lemma_combined_count_is_per_file_sum(
            files.drop_last(),
            skip_lemmanization,
            skip_junk_words,
            lemma,
            junk,
            t,
        );
        crate::counts::lemma_count_in_concat(
            combined_tokens(files.drop_last(), skip_lemmanization, skip_junk_words, lemma, junk),
            pipeline_spec(
                files.last().1.deep_view(),
                skip_lemmanization,
                skip_junk_words,
                lemma,
                junk,
            ),
            t,
        );
    }
}

/// Combined (total) mode: every file is run through the pipeline, the token
/// lists are gathered into one buffer, and a single table named `total` is
/// built over all of them. Each token's final count is its total number of
/// occurrences across the whole set, whatever the gathering order.
pub fn total(
    files: &Vec<(String, Vec<String>)>,
    ops: &Options,
    lemma: &LemmaTable,
    junk: &JunkSet,
) -> (r: Stats)
    ensures
        ({
            let all = combined_tokens(
                files@,
                ops.skip_lemmanization,
                ops.skip_junk_words,
                *lemma,
                *junk,
            );
            &&& r.wf()
            &&& r.spec_file_name() == "total"@
            &&& r.spec_total() == all.len()
            &&& forall|t: Seq<char>| r.count(t) == count_in(all, t)
        }),
{
    let ghost sl = ops.skip_lemmanization;
    let ghost sj = ops.skip_junk_words;
    let mut buffer: Vec<String> = Vec::new();
    let n = files.len();
    let mut i: usize = 0;
    proof {
        assert(files@.take(0) =~= Seq::<(String, Vec<String>)>::empty());
        assert(buffer.deep_view() =~= Seq::<Seq<char>>::empty());
    }
    while i < n
        invariant
            0 <= i <= n,
            n == files@.len(),
            sl == ops.skip_lemmanization,
            sj == ops.skip_junk_words,
            buffer.deep_view() == combined_tokens(files@.take(i as int), sl, sj, *lemma, *junk),
        decreases n - i,
    {
        proof {
            assert(files@.take(i + 1).drop_last() =~= files@.take(i as int));
            assert(files@.take(i + 1).last() == files@[i as int]);
        }
        let f = &files[i];
        match file(&f.1, ops, lemma, junk) {
            Ok(mut words) => {
                let ghost prev = buffer.deep_view();
                let ghost wv = words.deep_view();
                buffer.append(&mut words);
                proof {
                    assert(buffer.deep_view() =~= prev + wv);
                }
            },
            Err(_) => {
                proof {
                    assert(buffer.deep_view() + pipeline_spec(
                        files@[i as int].1.deep_view(),
                        sl,
                        sj,
                        *lemma,
                        *junk,
                    ) =~= buffer.deep_view());
                }
            },
        }
        i = i + 1;
    }
    proof {
        assert(files@.take(n as int) =~= files@);
    }
    let mut st = Stats::new_total();
    let buffer_len = buffer.len();
    proof {
        assert(buffer@.len() == buffer_len);
    }
    st.extend(&buffer);
    st
}

} // verus!
