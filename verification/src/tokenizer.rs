//! Tokenization: markup-like bracketed spans are stripped from a line, then
//! every maximal run of ASCII letters becomes one lowercase token.
use vstd::prelude::*;
use vstd::string::StrSliceExecFns;

verus! {

/// A character counts as a word character exactly when it is an ASCII letter.
pub open spec fn is_letter(c: char) -> bool {
    ('a' <= c && c <= 'z') || ('A' <= c && c <= 'Z')
}

/// ASCII lowercasing of one character; anything but `A`..=`Z` is unchanged.
pub open spec fn lower_char(c: char) -> char {
    if 'A' <= c && c <= 'Z' {
        ((c as u32) + 32) as char
    } else {
        c
    }
}

/// ASCII lowercasing of a character sequence.
pub open spec fn lower_seq(s: Seq<char>) -> Seq<char> {
    s.map_values(|c: char| lower_char(c))
}

/// Executable ASCII lowercasing of one character.
pub fn to_lower_char(c: char) -> (r: char)
    ensures
        r == lower_char(c),
{
    if 'A' <= c && c <= 'Z' {
        ((c as u8) + 32) as char
    } else {
        c
    }
}

fn is_letter_char(c: char) -> (r: bool)
    ensures
        r == is_letter(c),
{
    ('a' <= c && c <= 'z') || ('A' <= c && c <= 'Z')
}

/// Relies on `String::push`: appends exactly one character to the string.
#[verifier::external_body]
pub(crate) fn push_char(s: &mut String, c: char)
    ensures
        final(s)@ == old(s)@.push(c),
{
    s.push(c);
}

/// Executable ASCII lowercasing of a whole string.
pub fn lower_ascii(s: &str) -> (r: String)
    ensures
        r@ == lower_seq(s@),
{
    let n = s.unicode_len();
    let mut r = String::new();
    let mut i: usize = 0;
    while i < n
        invariant
            n == s@.len(),
            0 <= i <= n,
            r@ == lower_seq(s@.take(i as int)),
        decreases n - i,
    {
        let c = s.get_char(i);
        push_char(&mut r, to_lower_char(c));
        i = i + 1;
        proof {
            assert(lower_seq(s@.take(i as int)) =~= lower_seq(s@.take(i - 1)).push(
                lower_char(s@[i - 1]),
            ));
        }
    }
    proof {
        assert(s@.take(n as int) =~= s@);
    }
    r
}

/// Index of the first `>` in `s`, if any.
pub open spec fn first_close(s: Seq<char>) -> Option<int>
    decreases s.len(),
{
    if s.len() == 0 {
        None
    } else if s[0] == '>' {
        Some(0int)
    } else {
        match first_close(s.drop_first()) {
            Some(j) => Some(j + 1),
            None => None,
        }
    }
}

proof fn lemma_first_close(s: Seq<char>)
    ensures
        match first_close(s) {
            Some(j) => 0 <= j < s.len() && s[j] == '>' && (forall|k: int|
                0 <= k < j ==> s[k] != '>'),
            None => forall|k: int| 0 <= k < s.len() ==> s[k] != '>',
        },
    decreases s.len(),
{
    if s.len() > 0 && s[0] != '>' {
        lemma_first_close(s.drop_first());
        match first_close(s.drop_first()) {
            Some(j) => {
                assert forall|k: int| 0 <= k < j + 1 implies s[k] != '>' by {
                    if k > 0 {
                        assert(s.drop_first()[k - 1] != '>');
                    }
                }
            },
            None => {
                assert forall|k: int| 0 <= k < s.len() implies s[k] != '>' by {
                    if k > 0 {
                        assert(s.drop_first()[k - 1] != '>');
                    }
                }
            },
        }
    }
}

proof fn lemma_first_close_at(s: Seq<char>, j: int)
    requires
        0 <= j < s.len(),
        s[j] == '>',
        forall|k: int| 0 <= k < j ==> s[k] != '>',
    ensures
        first_close(s) == Some(j),
{
    lemma_first_close(s);
}

proof fn lemma_first_close_none(s: Seq<char>)
    requires
        forall|k: int| 0 <= k < s.len() ==> s[k] != '>',
    ensures
        first_close(s) is None,
{
    lemma_first_close(s);
}

/// Removal of bracketed spans: each `<`, together with everything through the
/// first following `>`, is dropped; a `<` with no later `>` stays.
pub open spec fn strip_markup(s: Seq<char>) -> Seq<char>
    decreases s.len(),
    via strip_markup_decreases
{
    if s.len() == 0 {
        Seq::empty()
    } else if s[0] == '<' {
        match first_close(s.drop_first()) {
            Some(j) => strip_markup(s.skip(j + 2)),
            None => seq!['<'] + strip_markup(s.drop_first()),
        }
    } else {
        seq![s[0]] + strip_markup(s.drop_first())
    }
}

#[via_fn]
proof fn strip_markup_decreases(s: Seq<char>) {
    if s.len() > 0 && s[0] == '<' {
        lemma_first_close(s.drop_first());
    }
}

/// Length of the maximal run of letters at the head of `s`.
pub open spec fn letter_run_len(s: Seq<char>) -> nat
    decreases s.len(),
{
    if s.len() == 0 || !is_letter(s[0]) {
        0
    } else {
        1 + letter_run_len(s.drop_first())
    }
}

proof fn lemma_letter_run_len(s: Seq<char>)
    ensures
        letter_run_len(s) <= s.len(),
        forall|k: int| 0 <= k < letter_run_len(s) ==> is_letter(s[k]),
        letter_run_len(s) < s.len() ==> !is_letter(s[letter_run_len(s) as int]),
    decreases s.len(),
{
    if s.len() > 0 && is_letter(s[0]) {
        lemma_letter_run_len(s.drop_first());
        assert forall|k: int| 0 <= k < letter_run_len(s) implies is_letter(s[k]) by {
            if k > 0 {
                assert(is_letter(s.drop_first()[k - 1]));
            }
        }
        if letter_run_len(s) < s.len() {
            assert(s[letter_run_len(s) as int] == s.drop_first()[letter_run_len(
                s.drop_first(),
            ) as int]);
        }
    }
}

proof fn lemma_letter_run_len_at(s: Seq<char>, m: int)
    requires
        0 <= m <= s.len(),
        forall|k: int| 0 <= k < m ==> is_letter(s[k]),
        m < s.len() ==> !is_letter(s[m]),
    ensures
        letter_run_len(s) == m,
{
    lemma_letter_run_len(s);
}

/// The words of a character sequence: each maximal run of letters, lowercased,
/// in order of appearance.
pub open spec fn words_of(s: Seq<char>) -> Seq<Seq<char>>
    decreases s.len(),
    via words_of_decreases
{
    if s.len() == 0 {
        Seq::empty()
    } else if !is_letter(s[0]) {
        words_of(s.drop_first())
    } else {
        seq![lower_seq(s.take(letter_run_len(s) as int))] + words_of(
            s.skip(letter_run_len(s) as int),
        )
    }
}

#[via_fn]
proof fn words_of_decreases(s: Seq<char>) {
    if s.len() > 0 && is_letter(s[0]) {
        lemma_letter_run_len(s);
    }
}

/// The tokens of one line: bracketed spans are stripped, then every maximal
/// letter run becomes one lowercase token.
pub open spec fn tokenize_spec(line: Seq<char>) -> Seq<Seq<char>> {
    words_of(strip_markup(line))
}

/// The tokens of a whole file: the lines' tokens concatenated in file order.
pub open spec fn tokenize_lines_spec(lines: Seq<Seq<char>>) -> Seq<Seq<char>>
    decreases lines.len(),
{
    if lines.len() == 0 {
        Seq::empty()
    } else {
        tokenize_lines_spec(lines.drop_last()) + tokenize_spec(lines.last())
    }
}

/// The characters of a string, as a vector.
pub(crate) fn chars_of(s: &str) -> (r: Vec<char>)
    ensures
        r@ == s@,
{
    let n = s.unicode_len();
    let mut r: Vec<char> = Vec::new();
    let mut i: usize = 0;
    while i < n
        invariant
            n == s@.len(),
            0 <= i <= n,
            r@ == s@.take(i as int),
        decreases n - i,
    {
        let c = s.get_char(i);
        r.push(c);
        i = i + 1;
        proof {
            assert(s@.take(i as int) =~= s@.take(i - 1).push(s@[i - 1]));
        }
    }
    proof {
        assert(s@.take(n as int) =~= s@);
    }
    r
}

/// First index `j` in `[start, cs.len())` with `cs[j] == '>'`, if any.
fn find_close(cs: &Vec<char>, start: usize) -> (r: Option<usize>)
    requires
        start <= cs@.len(),
    ensures
        match r {
            Some(j) => start <= j < cs@.len() && cs@[j as int] == '>' && (forall|k: int|
                start <= k < j ==> cs@[k] != '>'),
            None => forall|k: int| start <= k < cs@.len() ==> cs@[k] != '>',
        },
{
    let n = cs.len();
    let mut j = start;
    while j < n
        invariant
            start <= j <= n,
            n == cs@.len(),
            forall|k: int| start <= k < j ==> cs@[k] != '>',
        decreases n - j,
    {
        if cs[j] == '>' {
            return Some(j);
        }
        j = j + 1;
    }
    None
}

fn strip_markup_exec(cs: &Vec<char>) -> (r: Vec<char>)
    ensures
        r@ == strip_markup(cs@),
{
    let ghost s = cs@;
    let n = cs.len();
    let mut out: Vec<char> = Vec::new();
    let mut i: usize = 0;
    proof {
        assert(s.skip(0) =~= s);
        assert(out@ + strip_markup(s) =~= strip_markup(s));
    }
    while i < n
        invariant
            0 <= i <= n,
            n == s.len(),
            cs@ == s,
            out@ + strip_markup(s.skip(i as int)) == strip_markup(s),
        decreases n - i,
    {
        let c = cs[i];
        if c == '<' {
            match find_close(cs, i + 1) {
                Some(j) => {
                    proof {
                        assert(s.skip(i as int).drop_first() =~= s.skip(i + 1));
                        lemma_first_close_at(s.skip(i + 1), j - (i + 1));
                        assert(s.skip(i as int).skip((j - (i + 1)) + 2) =~= s.skip(j + 1));
                    }
                    i = j + 1;
                },
                None => {
                    proof {
                        assert(s.skip(i as int).drop_first() =~= s.skip(i + 1));
                        lemma_first_close_none(s.skip(i + 1));
                    }
                    let ghost prev = out@;
                    out.push('<');
                    i = i + 1;
                    proof {
                        assert(prev + strip_markup(s.skip(i - 1)) =~= out@ + strip_markup(
                            s.skip(i as int),
                        ));
                    }
                },
            }
        } else {
            proof {
                assert(s.skip(i as int).drop_first() =~= s.skip(i + 1));
            }
            let ghost prev = out@;
            out.push(c);
            i = i + 1;
            proof {
                assert(prev + strip_markup(s.skip(i - 1)) =~= out@ + strip_markup(
                    s.skip(i as int),
                ));
            }
        }
    }
    proof {
        assert(s.skip(n as int) =~= Seq::<char>::empty());
        assert(out@ + Seq::<char>::empty() =~= out@);
    }
    out
}

fn words_exec(cs: &Vec<char>) -> (r: Vec<String>)
    ensures
        r.deep_view() == words_of(cs@),
{
    let ghost s = cs@;
    let n = cs.len();
    let mut out: Vec<String> = Vec::new();
    let mut i: usize = 0;
    proof {
        assert(s.skip(0) =~= s);
        assert(out.deep_view() =~= Seq::<Seq<char>>::empty());
        assert(out.deep_view() + words_of(s) =~= words_of(s));
    }
    while i < n
        invariant
            0 <= i <= n,
            n == s.len(),
            cs@ == s,
            out.deep_view() + words_of(s.skip(i as int)) == words_of(s),
        decreases n - i,
    {
        if is_letter_char(cs[i]) {
            let mut j = i + 1;
            while j < n && is_letter_char(cs[j])
                invariant
                    i < j <= n,
                    n == s.len(),
                    cs@ == s,
                    forall|k: int| i <= k < j ==> is_letter(s[k]),
                decreases n - j,
            {
                j = j + 1;
            }
            proof {
                lemma_letter_run_len_at(s.skip(i as int), j - i);
            }
            let mut tok = String::new();
            let mut k = i;
            while k < j
                invariant
                    i <= k <= j <= n,
                    n == s.len(),
                    cs@ == s,
                    tok@ == lower_seq(s.subrange(i as int, k as int)),
                decreases j - k,
            {
                let lc = to_lower_char(cs[k]);
                push_char(&mut tok, lc);
                k = k + 1;
                proof {
                    assert(lower_seq(s.subrange(i as int, k as int)) =~= lower_seq(
                        s.subrange(i as int, k - 1),
                    ).push(lower_char(s[k - 1])));
                }
            }
            let ghost prev = out.deep_view();
            let ghost tv = tok@;
            out.push(tok);
            proof {
                assert(out.deep_view() =~= prev.push(tv));
                assert(s.skip(i as int).take(j - i) =~= s.subrange(i as int, j as int));
                assert(s.skip(i as int).skip(j - i) =~= s.skip(j as int));
                assert(prev.push(tv) + words_of(s.skip(j as int)) =~= prev + (seq![tv] + words_of(
                    s.skip(j as int),
                )));
            }
            i = j;
        } else {
            proof {
                assert(s.skip(i as int).drop_first() =~= s.skip(i + 1));
            }
            i = i + 1;
        }
    }
    proof {
        assert(s.skip(n as int) =~= Seq::<char>::empty());
        assert(out.deep_view() + Seq::<Seq<char>>::empty() =~= out.deep_view());
    }
    out
}

/// Tokenize one line: strip bracketed spans, then return each maximal run of
/// ASCII letters as one lowercase token, in order of appearance.
pub fn tokenize(line: &str) -> (r: Vec<String>)
    ensures
        r.deep_view() == tokenize_spec(line@),
{
    let cs = chars_of(line);
    let stripped = strip_markup_exec(&cs);
    words_exec(&stripped)
}

/// Tokenize the lines of a file, concatenating the tokens in file order.
pub fn find_words_in_file(lines: &Vec<String>) -> (r: Vec<String>)
    ensures
        r.deep_view() == tokenize_lines_spec(lines.deep_view()),
{
    let mut r: Vec<String> = Vec::new();
    let n = lines.len();
    let mut i: usize = 0;
    while i < n
        invariant
            0 <= i <= n,
            n == lines@.len(),
            r.deep_view() == tokenize_lines_spec(lines.deep_view().take(i as int)),
        decreases n - i,
    {
        let mut toks = tokenize(lines[i].as_str());
        let ghost prev = r.deep_view();
        let ghost tv = toks.deep_view();
        r.append(&mut toks);
        i = i + 1;
        proof {
            let lv = lines.deep_view();
            assert(r.deep_view() =~= prev + tv);
            assert(lv.take(i as int).drop_last() =~= lv.take(i - 1));
            assert(lv.take(i as int).last() == lv[i - 1]);
        }
    }
    proof {
        assert(lines.deep_view().take(n as int) =~= lines.deep_view());
    }
    r
}

proof fn lemma_strip_keeps_no_letters(s: Seq<char>)
    requires
        forall|k: int| 0 <= k < s.len() ==> !is_letter(s[k]),
    ensures
        forall|k: int| 0 <= k < strip_markup(s).len() ==> !is_letter(strip_markup(s)[k]),
    decreases s.len(),
{
    if s.len() > 0 {
        assert forall|k: int| 0 <= k < s.drop_first().len() implies !is_letter(
            s.drop_first()[k],
        ) by {
            assert(s.drop_first()[k] == s[k + 1]);
        }
        if s[0] == '<' {
            match first_close(s.drop_first()) {
                Some(j) => {
                    lemma_first_close(s.drop_first());
                    assert forall|k: int| 0 <= k < s.skip(j + 2).len() implies !is_letter(
                        #[trigger] s.skip(j + 2)[k],
                    ) by {
                        assert(s.skip(j + 2)[k] == s[k + j + 2]);
                    }
                    lemma_strip_keeps_no_letters(s.skip(j + 2));
                    assert(strip_markup(s) == strip_markup(s.skip(j + 2)));
                    assert forall|k: int| 0 <= k < strip_markup(s).len() implies !is_letter(
                        strip_markup(s)[k],
                    ) by {
                        assert(!is_letter(strip_markup(s.skip(j + 2))[k]));
                    }
                },
                None => {
                    lemma_strip_keeps_no_letters(s.drop_first());
                    assert forall|k: int| 0 <= k < strip_markup(s).len() implies !is_letter(
                        strip_markup(s)[k],
                    ) by {
                        if k > 0 {
                            assert(strip_markup(s)[k] == strip_markup(s.drop_first())[k - 1]);
                        }
                    }
                },
            }
        } else {
            lemma_strip_keeps_no_letters(s.drop_first());
            assert forall|k: int| 0 <= k < strip_markup(s).len() implies !is_letter(
                strip_markup(s)[k],
            ) by {
                if k > 0 {
                    assert(strip_markup(s)[k] == strip_markup(s.drop_first())[k - 1]);
                }
            }
        }
    }
}

proof fn lemma_words_of_no_letters(s: Seq<char>)
    requires
        forall|k: int| 0 <= k < s.len() ==> !is_letter(s[k]),
    ensures
        words_of(s).len() == 0,
    decreases s.len(),
{
    if s.len() > 0 {
        assert(!is_letter(s[0]));
        assert forall|k: int| 0 <= k < s.drop_first().len() implies !is_letter(
            s.drop_first()[k],
        ) by {
            assert(s.drop_first()[k] == s[k + 1]);
        }
        lemma_words_of_no_letters(s.drop_first());
    }
}

/// A line without a single ASCII letter yields no tokens at all.
pub proof fn lemma_no_letters_no_tokens(line: Seq<char>)
    requires
        forall|k: int| 0 <= k < line.len() ==> !is_letter(line[k]),
    ensures
        tokenize_spec(line).len() == 0,
{
    lemma_strip_keeps_no_letters(line);
    lemma_words_of_no_letters(strip_markup(line));
}

/// A file none of whose lines holds an ASCII letter yields no tokens at all.
pub proof fn lemma_no_letters_no_file_tokens(lines: Seq<Seq<char>>)
    requires
        forall|i: int, k: int|
            0 <= i < lines.len() && 0 <= k < lines[i].len() ==> !is_letter(#[trigger] lines[i][k]),
    ensures
        tokenize_lines_spec(lines).len() == 0,
    decreases lines.len(),
{
    if lines.len() > 0 {
        assert forall|i: int, k: int|
            0 <= i < lines.drop_last().len() && 0 <= k < lines.drop_last()[i].len()
            implies !is_letter(#[trigger] lines.drop_last()[i][k]) by {
            assert(lines.drop_last()[i] == lines[i]);
        }
        lemma_no_letters_no_file_tokens(lines.drop_last());
        assert forall|k: int| 0 <= k < lines.last().len() implies !is_letter(lines.last()[k]) by {
            assert(lines.last() == lines[lines.len() - 1]);
        }
        lemma_no_letters_no_tokens(lines.last());
    }
}

} // verus!
