//! Character-level text handling shared by the model, the state machine and
//! the rendering helpers: whitespace, trimming, line splitting, decimal
//! numbers and case-insensitive fuzzy matching.
use vstd::prelude::*;
use vstd::string::*;
use crate::model::string_views;

verus! {

/// Whether `c` has the Unicode `White_Space` property (what `char::is_whitespace`
/// tests).
pub open spec fn is_white_space(c: char) -> bool {
    ||| ('\u{9}' <= c && c <= '\u{d}')
    ||| c == ' '
    ||| c == '\u{85}'
    ||| c == '\u{a0}'
    ||| c == '\u{1680}'
    ||| ('\u{2000}' <= c && c <= '\u{200a}')
    ||| c == '\u{2028}'
    ||| c == '\u{2029}'
    ||| c == '\u{202f}'
    ||| c == '\u{205f}'
    ||| c == '\u{3000}'
}

pub fn char_is_white_space(c: char) -> (b: bool)
    ensures
        b == is_white_space(c),
{
    ('\u{9}' <= c && c <= '\u{d}') || c == ' ' || c == '\u{85}' || c == '\u{a0}' || c
        == '\u{1680}' || ('\u{2000}' <= c && c <= '\u{200a}') || c == '\u{2028}' || c
        == '\u{2029}' || c == '\u{202f}' || c == '\u{205f}' || c == '\u{3000}'
}

/// `s` without its trailing whitespace.
pub open spec fn trim_end_of(s: Seq<char>) -> Seq<char>
    decreases s.len(),
{
    if s.len() > 0 && is_white_space(s.last()) {
        trim_end_of(s.drop_last())
    } else {
        s
    }
}

/// `s` without its leading whitespace.
pub open spec fn trim_start_of(s: Seq<char>) -> Seq<char>
    decreases s.len(),
{
    if s.len() > 0 && is_white_space(s.first()) {
        trim_start_of(s.drop_first())
    } else {
        s
    }
}

/// `s` without leading and trailing whitespace.
pub open spec fn trim_of(s: Seq<char>) -> Seq<char> {
    trim_start_of(trim_end_of(s))
}

/// Whether every character of `s` is whitespace (so that it trims to nothing).
pub open spec fn is_blank(s: Seq<char>) -> bool {
    forall|i: int| 0 <= i < s.len() ==> is_white_space(#[trigger] s[i])
}

/// The line that starts `s`: everything before the first `'\n'`, without the
/// `'\r'` of a `"\r\n"` ending.
pub open spec fn newline_index(s: Seq<char>) -> int
    decreases s.len(),
{
    if s.len() == 0 {
        0
    } else if s.first() == '\n' {
        0
    } else {
        1 + newline_index(s.drop_first())
    }
}

/// The lines of `s` as `str::lines` yields them: split at `"\n"` or `"\r\n"`,
/// with no empty line after a final line ending.
pub open spec fn lines_of(s: Seq<char>) -> Seq<Seq<char>>
    decreases s.len(),
{
    if s.len() == 0 {
        seq![]
    } else {
        let i = newline_index(s);
        if i >= s.len() {
            seq![s]
        } else {
            let line = s.take(i);
            let line = if line.len() > 0 && line.last() == '\r' {
                line.drop_last()
            } else {
                line
            };
            proof {
                lemma_newline_index_bounds(s);
            }
            seq![line] + lines_of(s.skip(i + 1))
        }
    }
}

/// The words of `s` as `str::split_whitespace` yields them: maximal runs of
/// non-whitespace characters.
pub open spec fn words_of(s: Seq<char>) -> Seq<Seq<char>>
    decreases s.len(),
{
    if s.len() == 0 {
        seq![]
    } else if is_white_space(s.first()) {
        words_of(s.drop_first())
    } else {
        let n = word_len(s);
        proof {
            lemma_word_len_bounds(s);
        }
        seq![s.take(n)] + words_of(s.skip(n))
    }
}

/// Length of the run of non-whitespace characters that starts `s`.
pub open spec fn word_len(s: Seq<char>) -> int
    decreases s.len(),
{
    if s.len() == 0 || is_white_space(s.first()) {
        0
    } else {
        1 + word_len(s.drop_first())
    }
}

pub proof fn lemma_newline_index_bounds(s: Seq<char>)
    ensures
        0 <= newline_index(s) <= s.len(),
        newline_index(s) < s.len() ==> s[newline_index(s)] == '\n',
        forall|k: int| 0 <= k < newline_index(s) ==> s[k] != '\n',
    decreases s.len(),
{
    if s.len() > 0 && s.first() != '\n' {
        lemma_newline_index_bounds(s.drop_first());
        assert forall|k: int| 0 <= k < newline_index(s) implies s[k] != '\n' by {
            if k > 0 {
                assert(s[k] == s.drop_first()[k - 1]);
            }
        }
    }
}

pub proof fn lemma_word_len_bounds(s: Seq<char>)
    ensures
        0 <= word_len(s) <= s.len(),
        s.len() > 0 && !is_white_space(s.first()) ==> word_len(s) >= 1,
        word_len(s) < s.len() ==> is_white_space(s[word_len(s)]),
        forall|k: int| 0 <= k < word_len(s) ==> !is_white_space(#[trigger] s[k]),
    decreases s.len(),
{
    if s.len() > 0 && !is_white_space(s.first()) {
        lemma_word_len_bounds(s.drop_first());
        assert forall|k: int| 0 <= k < word_len(s) implies !is_white_space(#[trigger] s[k]) by {
            if k > 0 {
                assert(s[k] == s.drop_first()[k - 1]);
            }
        }
    }
}

/// `parts` joined with `sep` between consecutive parts.
pub open spec fn joined(parts: Seq<Seq<char>>, sep: Seq<char>) -> Seq<char>
    decreases parts.len(),
{
    if parts.len() == 0 {
        seq![]
    } else if parts.len() == 1 {
        parts[0]
    } else {
        joined(parts.drop_last(), sep) + sep + parts.last()
    }
}

/// Whether `needle` occurs in `haystack` in order, not necessarily contiguously.
pub open spec fn is_subsequence(needle: Seq<char>, haystack: Seq<char>) -> bool
    decreases haystack.len(),
{
    if needle.len() == 0 {
        true
    } else if haystack.len() == 0 {
        false
    } else if haystack.first() == needle.first() {
        is_subsequence(needle.drop_first(), haystack.drop_first())
    } else {
        is_subsequence(needle, haystack.drop_first())
    }
}

/// The decimal digits of `n`, most significant first.
pub open spec fn decimal_of(n: nat) -> Seq<char>
    decreases n,
{
    if n < 10 {
        seq![digit_char(n)]
    } else {
        decimal_of(n / 10) + seq![digit_char(n % 10)]
    }
}

pub open spec fn digit_char(d: nat) -> char {
    if d == 0 {
        '0'
    } else if d == 1 {
        '1'
    } else if d == 2 {
        '2'
    } else if d == 3 {
        '3'
    } else if d == 4 {
        '4'
    } else if d == 5 {
        '5'
    } else if d == 6 {
        '6'
    } else if d == 7 {
        '7'
    } else if d == 8 {
        '8'
    } else {
        '9'
    }
}

/// `n` written in decimal, with a leading `'-'` when negative.
pub open spec fn int_text(n: int) -> Seq<char> {
    if n < 0 {
        seq!['-'] + decimal_of((-n) as nat)
    } else {
        decimal_of(n as nat)
    }
}

/// The lowercase form of `s` that `str::to_lowercase` computes (Unicode case
/// tables, including the context rule for a final sigma).
pub uninterp spec fn lowercase_of(s: Seq<char>) -> Seq<char>;

/// Appends one character: `String::push`.
#[verifier::external_body]
pub(crate) fn push_char(s: &mut String, c: char)
    ensures
        final(s)@ == old(s)@.push(c),
{
    s.push(c);
}

/// Removes the last character: `String::pop`.
#[verifier::external_body]
pub(crate) fn pop_char(s: &mut String) -> (r: Option<char>)
    ensures
        old(s)@.len() == 0 ==> r is None && final(s)@ == old(s)@,
        old(s)@.len() > 0 ==> r == Some(old(s)@.last()) && final(s)@ == old(s)@.drop_last(),
{
    s.pop()
}

/// String equality on `str`: `<str as PartialEq>::eq`.
#[verifier::external_body]
pub(crate) fn str_eq(a: &str, b: &str) -> (r: bool)
    ensures
        r == (a@ == b@),
{
    a == b
}

/// `str::to_lowercase`; the result is named by [`lowercase_of`].
#[verifier::external_body]
fn to_lowercase(s: &str) -> (r: String)
    ensures
        r@ == lowercase_of(s@),
{
    s.to_lowercase()
}

/// The characters of `s`, in order.
pub fn chars_of(s: &str) -> (v: Vec<char>)
    ensures
        v@ == s@,
{
    let n = s.unicode_len();
    let mut v: Vec<char> = Vec::new();
    let mut i: usize = 0;
    while i < n
        invariant
            n == s@.len(),
            i <= n,
            v@ == s@.take(i as int),
        decreases n - i,
    {
        let c = s.get_char(i);
        v.push(c);
        i = i + 1;
        assert(v@ =~= s@.take(i as int));
    }
    assert(v@ =~= s@);
    v
}

/// A `String` holding `chars[from..to]`.
pub fn string_from(chars: &Vec<char>, from: usize, to: usize) -> (s: String)
    requires
        from <= to <= chars@.len(),
    ensures
        s@ == chars@.subrange(from as int, to as int),
{
    let mut s = String::new();
    let mut i = from;
    while i < to
        invariant
            from <= i <= to <= chars@.len(),
            s@ == chars@.subrange(from as int, i as int),
        decreases to - i,
    {
        push_char(&mut s, chars[i]);
        i = i + 1;
        assert(s@ =~= chars@.subrange(from as int, i as int));
    }
    s
}

/// Appends the characters of `t`.
pub fn push_text(s: &mut String, t: &str)
    ensures
        final(s)@ == old(s)@ + t@,
{
    s.append(t);
}

/// `s` without leading and trailing whitespace, as `str::trim` returns it.
pub fn trim(s: &str) -> (r: String)
    ensures
        r@ == trim_of(s@),
{
    let v = chars_of(s);
    let (from, to) = trimmed_bounds(&v, true);
    string_from(&v, from, to)
}

/// `s` without trailing whitespace, as `str::trim_end` returns it.
pub fn trim_end(s: &str) -> (r: String)
    ensures
        r@ == trim_end_of(s@),
{
    let v = chars_of(s);
    let (from, to) = trimmed_bounds(&v, false);
    string_from(&v, from, to)
}

proof fn lemma_trim_end_subrange(s: Seq<char>, to: int)
    requires
        0 <= to <= s.len(),
        forall|k: int| to <= k < s.len() ==> is_white_space(#[trigger] s[k]),
    ensures
        trim_end_of(s) == trim_end_of(s.take(to)),
    decreases s.len() - to,
{
    if to < s.len() {
        assert(s.drop_last() =~= s.take(s.len() - 1));
        lemma_trim_end_subrange(s.drop_last(), to);
        assert(s.drop_last().take(to) =~= s.take(to));
    } else {
        assert(s.take(to) =~= s);
    }
}

proof fn lemma_trim_start_skip(s: Seq<char>, from: int)
    requires
        0 <= from <= s.len(),
        forall|k: int| 0 <= k < from ==> is_white_space(#[trigger] s[k]),
    ensures
        trim_start_of(s) == trim_start_of(s.skip(from)),
    decreases from,
{
    if from > 0 {
        lemma_trim_start_skip(s.drop_first(), from - 1);
        assert(s.drop_first().skip(from - 1) =~= s.skip(from));
    } else {
        assert(s.skip(0) =~= s);
    }
}

/// The bounds of `v` once trailing (and, when `start` holds, leading)
/// whitespace is dropped.
fn trimmed_bounds(v: &Vec<char>, start: bool) -> (r: (usize, usize))
    ensures
        r.0 <= r.1 <= v@.len(),
        start ==> v@.subrange(r.0 as int, r.1 as int) == trim_of(v@),
        !start ==> r.0 == 0 && v@.subrange(0, r.1 as int) == trim_end_of(v@),
{
    let mut to = v.len();
    while to > 0 && char_is_white_space(v[to - 1])
        invariant
            to <= v@.len(),
            forall|k: int| to <= k < v@.len() ==> is_white_space(#[trigger] v@[k]),
        decreases to,
    {
        to = to - 1;
    }
    proof {
        lemma_trim_end_subrange(v@, to as int);
        let t = v@.take(to as int);
        if to > 0 {
            assert(!is_white_space(t.last()));
        }
        assert(trim_end_of(t) == t);
    }
    if !start {
        assert(v@.subrange(0, to as int) =~= v@.take(to as int));
        return (0, to);
    }
    let mut from: usize = 0;
    while from < to && char_is_white_space(v[from])
        invariant
            from <= to <= v@.len(),
            forall|k: int| 0 <= k < from ==> is_white_space(#[trigger] v@[k]),
        decreases to - from,
    {
        from = from + 1;
    }
    proof {
        let t = v@.take(to as int);
        lemma_trim_start_skip(t, from as int);
        let u = t.skip(from as int);
        if u.len() > 0 {
            assert(u.first() == v@[from as int]);
        }
        assert(trim_start_of(u) == u);
        assert(u =~= v@.subrange(from as int, to as int));
    }
    (from, to)
}

/// Writes `n` in decimal after `out`.
pub fn push_decimal(out: &mut String, n: u64)
    ensures
        final(out)@ == old(out)@ + decimal_of(n as nat),
    decreases n,
{
    if n >= 10 {
        push_decimal(out, n / 10);
    }
    let d = n % 10;
    let c = if d == 0 {
        '0'
    } else if d == 1 {
        '1'
    } else if d == 2 {
        '2'
    } else if d == 3 {
        '3'
    } else if d == 4 {
        '4'
    } else if d == 5 {
        '5'
    } else if d == 6 {
        '6'
    } else if d == 7 {
        '7'
    } else if d == 8 {
        '8'
    } else {
        '9'
    };
    push_char(out, c);
    proof {
        if n >= 10 {
            assert(decimal_of(n as nat) == decimal_of((n / 10) as nat) + seq![digit_char(
                (n % 10) as nat,
            )]);
        }
    }
    assert(final(out)@ =~= old(out)@ + decimal_of(n as nat));
}

/// Writes `n` in decimal after `out`, as `format!("{n}")` does.
pub fn push_int(out: &mut String, n: i64)
    ensures
        final(out)@ == old(out)@ + int_text(n as int),
{
    if n < 0 {
        push_char(out, '-');
        let magnitude: u64 = if n == i64::MIN {
            9223372036854775808u64
        } else {
            (-n) as u64
        };
        push_decimal(out, magnitude);
        assert(final(out)@ =~= old(out)@ + int_text(n as int));
    } else {
        push_decimal(out, n as u64);
    }
}

/// Whether the characters of `query` appear in order in `candidate`, ignoring
/// case; an empty query matches everything.
pub fn fuzzy_match(candidate: &str, query: &str) -> (r: bool)
    ensures
        r == (query@.len() == 0 || is_subsequence(
            lowercase_of(query@),
            lowercase_of(candidate@),
        )),
{
    if query.unicode_len() == 0 {
        return true;
    }
    let candidate = to_lowercase(candidate);
    let query = to_lowercase(query);
    subsequence_in(&chars_of(query.as_str()), &chars_of(candidate.as_str()))
}

/// Whether `needle` occurs in order within `haystack`: each character of the
/// needle is searched for after the place where the previous one was found.
pub fn subsequence_in(needle: &Vec<char>, haystack: &Vec<char>) -> (r: bool)
    ensures
        r == is_subsequence(needle@, haystack@),
{
    let mut i: usize = 0;
    let mut j: usize = 0;
    assert(needle@.skip(0) =~= needle@);
    assert(haystack@.skip(0) =~= haystack@);
    while i < needle.len()
        invariant
            i <= needle@.len(),
            j <= haystack@.len(),
            is_subsequence(needle@, haystack@) == is_subsequence(
                needle@.skip(i as int),
                haystack@.skip(j as int),
            ),
        decreases needle@.len() - i, haystack@.len() - j,
    {
        if j == haystack.len() {
            proof {
                let n = needle@.skip(i as int);
                let h = haystack@.skip(j as int);
                assert(n.len() > 0 && h.len() == 0);
            }
            return false;
        }
        proof {
            let n = needle@.skip(i as int);
            let h = haystack@.skip(j as int);
            assert(n.len() > 0 && h.len() > 0);
            assert(n.drop_first() =~= needle@.skip(i + 1));
            assert(h.drop_first() =~= haystack@.skip(j + 1));
        }
        if haystack[j] == needle[i] {
            i = i + 1;
        }
        j = j + 1;
    }
    proof {
        assert(needle@.skip(i as int).len() == 0);
    }
    true
}

/// The lines of `s` (as `str::lines` splits them) as strings.
pub fn split_lines(s: &str) -> (r: Vec<String>)
    ensures
        string_views(r@) == lines_of(s@),
{
    let chars = chars_of(s);
    let ghost full = s@;
    let n = chars.len();
    let mut r: Vec<String> = Vec::new();
    let mut pos: usize = 0;
    proof {
        assert(full.skip(0) =~= full);
        assert(string_views(r@) + lines_of(full.skip(0)) =~= lines_of(full));
    }
    while pos < n
        invariant
            chars@ == full,
            n == full.len(),
            pos <= n,
            string_views(r@) + lines_of(full.skip(pos as int)) == lines_of(full),
        decreases n - pos,
    {
        let ghost rest = full.skip(pos as int);
        let mut end = pos;
        while end < n && chars[end] != '\n'
            invariant
                chars@ == full,
                n == full.len(),
                pos <= end <= n,
                forall|m: int| pos <= m < end ==> full[m] != '\n',
            decreases n - end,
        {
            end = end + 1;
        }
        proof {
            lemma_newline_index_bounds(rest);
            let i = newline_index(rest);
            assert forall|m: int| 0 <= m < end - pos implies rest[m] != '\n' by {
                assert(rest[m] == full[pos + m]);
            }
            if end < n {
                assert(rest[end - pos] == '\n');
            }
            if i < end - pos {
                assert(rest[i] == '\n');
            }
            if end - pos < i {
                assert(rest[end - pos] != '\n');
            }
            assert(i == end - pos);
        }
        let mut stop = end;
        if end < n && stop > pos && chars[stop - 1] == '\r' {
            stop = stop - 1;
        }
        let line = string_from(&chars, pos, stop);
        let ghost before = string_views(r@);
        r.push(line);
        proof {
            assert(string_views(r@) =~= before.push(line@));
            let i = end - pos;
            if end < n {
                let l = rest.take(i);
                assert(l =~= full.subrange(pos as int, end as int));
                if l.len() > 0 && l.last() == '\r' {
                    assert(line@ =~= l.drop_last());
                } else {
                    assert(line@ =~= l);
                }
                assert(rest.skip(i + 1) =~= full.skip(end + 1));
                assert(lines_of(rest) == seq![line@] + lines_of(full.skip(end + 1)));
            } else {
                assert(line@ =~= rest);
                assert(lines_of(rest) == seq![line@]);
                assert(full.skip(n as int) =~= Seq::<char>::empty());
            }
        }
        pos = if end < n {
            end + 1
        } else {
            end
        };
        proof {
            assert(string_views(r@) + lines_of(full.skip(pos as int)) =~= lines_of(full));
        }
    }
    proof {
        assert(full.skip(n as int) =~= Seq::<char>::empty());
        assert(string_views(r@) + lines_of(full.skip(n as int)) =~= string_views(r@));
    }
    r
}

proof fn lemma_word_len_exact(s: Seq<char>, k: int)
    requires
        0 <= k <= s.len(),
        forall|m: int| 0 <= m < k ==> !is_white_space(#[trigger] s[m]),
        k < s.len() ==> is_white_space(s[k]),
    ensures
        word_len(s) == k,
    decreases k,
{
    if k > 0 {
        let t = s.drop_first();
        assert forall|m: int| 0 <= m < k - 1 implies !is_white_space(#[trigger] t[m]) by {
            assert(t[m] == s[m + 1]);
        }
        if k - 1 < t.len() {
            assert(t[k - 1] == s[k]);
        }
        lemma_word_len_exact(t, k - 1);
    }
}

/// The words of `s` (as `str::split_whitespace` yields them) as strings.
pub fn split_words(s: &str) -> (r: Vec<String>)
    ensures
        string_views(r@) == words_of(s@),
{
    let chars = chars_of(s);
    let ghost full = s@;
    let n = chars.len();
    let mut r: Vec<String> = Vec::new();
    let mut pos: usize = 0;
    proof {
        assert(full.skip(0) =~= full);
        assert(string_views(r@) + words_of(full.skip(0)) =~= words_of(full));
    }
    while pos < n
        invariant
            chars@ == full,
            n == full.len(),
            pos <= n,
            string_views(r@) + words_of(full.skip(pos as int)) == words_of(full),
        decreases n - pos,
    {
        let ghost rest = full.skip(pos as int);
        if char_is_white_space(chars[pos]) {
            proof {
                assert(rest.drop_first() =~= full.skip(pos + 1));
            }
            pos = pos + 1;
        } else {
            let mut end = pos;
            while end < n && !char_is_white_space(chars[end])
                invariant
                    chars@ == full,
                    n == full.len(),
                    pos <= end <= n,
                    forall|m: int| pos <= m < end ==> !is_white_space(#[trigger] full[m]),
                decreases n - end,
            {
                end = end + 1;
            }
            let word = string_from(&chars, pos, end);
            let ghost before = string_views(r@);
            r.push(word);
            proof {
                assert forall|m: int| 0 <= m < end - pos implies !is_white_space(#[trigger] rest[m]) by {
                    assert(rest[m] == full[pos + m]);
                }
                if end < n {
                    assert(rest[end - pos] == full[end as int]);
                }
                lemma_word_len_exact(rest, end - pos);
                assert(rest.take(end - pos) =~= word@);
                assert(rest.skip(end - pos) =~= full.skip(end as int));
                assert(string_views(r@) =~= before.push(word@));
                assert(words_of(rest) == seq![word@] + words_of(full.skip(end as int)));
                assert(string_views(r@) + words_of(full.skip(end as int)) =~= words_of(full));
            }
            pos = end;
        }
    }
    proof {
        assert(full.skip(n as int) =~= Seq::<char>::empty());
        assert(string_views(r@) + words_of(full.skip(n as int)) =~= string_views(r@));
    }
    r
}

/// Whether `s` is empty or all whitespace (so that it trims to nothing).
pub fn is_blank_text(s: &str) -> (r: bool)
    ensures
        r == is_blank(s@),
{
    let chars = chars_of(s);
    let mut k: usize = 0;
    while k < chars.len()
        invariant
            chars@ == s@,
            k <= chars@.len(),
            forall|m: int| 0 <= m < k ==> is_white_space(#[trigger] s@[m]),
        decreases chars@.len() - k,
    {
        if !char_is_white_space(chars[k]) {
            return false;
        }
        k = k + 1;
    }
    true
}

} // verus!
