//! What the screen shows, apart from writing it to the terminal: column widths,
//! truncation and wrapping by display width, the labels and colors of the
//! table, the lines of the task view and of the modals, and where things go.
use vstd::prelude::*;
use vstd::string::*;
use vstd::utf8::*;
use unicode_width::{UnicodeWidthChar, UnicodeWidthStr};
use crate::text::{
    push_char, push_text, chars_of, string_from, str_eq, split_lines, split_words, is_blank_text,
    is_blank, lines_of, words_of, push_int, int_text, push_decimal, decimal_of,
};
use crate::app::{
    App, AppView, ModeView, AddIssueFlow, AddIssueFlowView, AddIssueStep, ISSUE_TYPES, PRIORITIES,
};
use crate::tree::TreeRowView;
use crate::model::{string_views, Issue, IssueView, Dependency, DependencyView, dependency_views};

verus! {

/// The display width of `c` in columns, as `unicode-width` gives it (`None`
/// for control characters).
pub uninterp spec fn char_width(c: char) -> Option<usize>;

/// The display width of the text `s` in columns, as `unicode-width` gives it.
pub uninterp spec fn text_width(s: Seq<char>) -> usize;

/// `UnicodeWidthChar::width` of `unicode-width`: the contract names its result
/// and claims nothing more of it.
#[verifier::external_body]
fn char_columns(c: char) -> (r: Option<usize>)
    ensures
        r == char_width(c),
{
    UnicodeWidthChar::width(c)
}

/// `UnicodeWidthStr::width` of `unicode-width`: the contract names its result,
/// and states that the empty string is zero columns wide (the crate documents
/// the width of text without ligatures as the sum of its characters' widths).
#[verifier::external_body]
pub(crate) fn columns(s: &str) -> (r: usize)
    ensures
        r == text_width(s@),
        s@.len() == 0 ==> r == 0,
{
    UnicodeWidthStr::width(s)
}

/// The columns a character takes when text is cut to fit: its width, or none
/// for a control character.
pub open spec fn columns_of(c: char) -> nat {
    match char_width(c) {
        Some(w) => w as nat,
        None => 0,
    }
}

fn char_columns_or_zero(c: char) -> (r: usize)
    ensures
        r == columns_of(c),
{
    match char_columns(c) {
        Some(w) => w,
        None => 0,
    }
}

/// Where the scan that keeps characters from position `k` on stops: at the
/// first character whose columns no longer fit in the `budget` left.
pub open spec fn fit_from(s: Seq<char>, k: nat, budget: nat) -> nat
    decreases s.len() - k,
{
    if k >= s.len() || columns_of(s[k as int]) > budget {
        k
    } else {
        fit_from(s, k + 1, (budget - columns_of(s[k as int])) as nat)
    }
}

proof fn lemma_fit_from_bounds(s: Seq<char>, k: nat, budget: nat)
    ensures
        k <= s.len() ==> k <= fit_from(s, k, budget) <= s.len(),
        k > s.len() ==> fit_from(s, k, budget) == k,
    decreases s.len() - k,
{
    if k < s.len() && columns_of(s[k as int]) <= budget {
        lemma_fit_from_bounds(s, k + 1, (budget - columns_of(s[k as int])) as nat);
    }
}

/// `s` cut to at most `width` columns: kept whole when it fits, else as many
/// leading characters as fit in `width - 1` columns followed by `…`.
pub open spec fn truncated(s: Seq<char>, width: nat) -> Seq<char> {
    if width == 0 {
        seq![]
    } else if text_width(s) <= width {
        s
    } else if width == 1 {
        seq!['…']
    } else {
        s.take(fit_from(s, 0, (width - 1) as nat) as int).push('…')
    }
}

/// `value` cut to at most `width` columns, ending in `…` where it was cut.
pub fn truncate(value: &str, width: usize) -> (r: String)
    ensures
        r@ == truncated(value@, width as nat),
{
    if width == 0 {
        return String::new();
    }
    if columns(value) <= width {
        let mut whole = String::new();
        push_text(&mut whole, value);
        return whole;
    }
    if width == 1 {
        let mut ellipsis = String::new();
        push_char(&mut ellipsis, '…');
        return ellipsis;
    }
    let chars = chars_of(value);
    let limit = width - 1;
    let mut used: usize = 0;
    let mut k: usize = 0;
    let mut fits = true;
    proof {
        lemma_fit_from_bounds(chars@, 0, limit as nat);
    }
    while fits && k < chars.len()
        invariant
            chars@ == value@,
            used <= limit,
            k <= chars@.len(),
            fit_from(chars@, k as nat, (limit - used) as nat) == fit_from(chars@, 0, limit as nat),
            !fits ==> fit_from(chars@, k as nat, (limit - used) as nat) == k,
        decreases chars@.len() - k + if fits { 1int } else { 0int },
    {
        let w = char_columns_or_zero(chars[k]);
        if w > limit - used {
            fits = false;
        } else {
            used = used + w;
            k = k + 1;
        }
    }
    let mut out = string_from(&chars, 0, k);
    push_char(&mut out, '…');
    proof {
        assert(chars@.subrange(0, k as int) =~= value@.take(k as int));
    }
    out
}

/// `n` spaces.
pub open spec fn spaces(n: nat) -> Seq<char> {
    Seq::new(n, |i: int| ' ')
}

fn push_spaces(out: &mut String, n: usize)
    ensures
        final(out)@ == old(out)@ + spaces(n as nat),
{
    let mut k: usize = 0;
    while k < n
        invariant
            k <= n,
            out@ == old(out)@ + spaces(k as nat),
        decreases n - k,
    {
        push_char(out, ' ');
        k = k + 1;
        assert(out@ =~= old(out)@ + spaces(k as nat));
    }
}

/// `s` fitted to exactly `width` columns: truncated, then filled with spaces.
pub open spec fn padded(s: Seq<char>, width: nat) -> Seq<char> {
    let t = truncated(s, width);
    t + spaces(
        if text_width(t) <= width {
            (width - text_width(t)) as nat
        } else {
            0
        },
    )
}

/// `value` truncated to `width` columns and filled with spaces up to it.
pub fn pad(value: &str, width: usize) -> (r: String)
    ensures
        r@ == padded(value@, width as nat),
{
    let mut out = truncate(value, width);
    let used = columns(out.as_str());
    let fill = if used <= width {
        width - used
    } else {
        0
    };
    push_spaces(&mut out, fill);
    out
}

/// The label of an issue type in the four-column TYPE cell.
pub open spec fn short_type_of(t: Seq<char>) -> Seq<char> {
    if t == "feature"@ || t == "feat"@ {
        "feat"@
    } else if t == "epic"@ {
        "epic"@
    } else if t == "bug"@ {
        "bug"@
    } else if t == "task"@ {
        "task"@
    } else if t == "chore"@ {
        "chor"@
    } else if t == "merge-request"@ {
        "mr"@
    } else {
        truncated(t, 4)
    }
}

fn owned(s: &str) -> (r: String)
    ensures
        r@ == s@,
{
    let mut out = String::new();
    push_text(&mut out, s);
    out
}

/// The label of an issue type in the TYPE column: known types by a fixed
/// short name, others cut to four columns.
pub fn short_type(issue_type: &str) -> (r: String)
    ensures
        r@ == short_type_of(issue_type@),
{
    if str_eq(issue_type, "feature") || str_eq(issue_type, "feat") {
        owned("feat")
    } else if str_eq(issue_type, "epic") {
        owned("epic")
    } else if str_eq(issue_type, "bug") {
        owned("bug")
    } else if str_eq(issue_type, "task") {
        owned("task")
    } else if str_eq(issue_type, "chore") {
        owned("chor")
    } else if str_eq(issue_type, "merge-request") {
        owned("mr")
    } else {
        truncate(issue_type, 4)
    }
}

/// The terminal colors the explorer uses.
#[derive(Clone, Copy, Debug, PartialEq, Eq, Structural)]
pub enum TermColor {
    Red,
    Yellow,
    Green,
    Blue,
    Magenta,
    Cyan,
    White,
    DarkGrey,
}

pub open spec fn priority_color_of(priority: i32) -> TermColor {
    if priority == 0 {
        TermColor::Red
    } else if priority == 1 {
        TermColor::Yellow
    } else if priority == 2 {
        TermColor::Green
    } else if priority == 3 {
        TermColor::Blue
    } else {
        TermColor::DarkGrey
    }
}

/// The color of a priority label: P0 red through P3 blue, lower priorities grey.
pub fn priority_color(priority: i32) -> (r: TermColor)
    ensures
        r == priority_color_of(priority),
{
    match priority {
        0 => TermColor::Red,
        1 => TermColor::Yellow,
        2 => TermColor::Green,
        3 => TermColor::Blue,
        _ => TermColor::DarkGrey,
    }
}

pub open spec fn status_color_of(status: Seq<char>) -> TermColor {
    if status == "open"@ {
        TermColor::Green
    } else if status == "in_progress"@ || status == "in-progress"@ {
        TermColor::Yellow
    } else if status == "blocked"@ {
        TermColor::Red
    } else if status == "closed"@ {
        TermColor::DarkGrey
    } else if status == "deferred"@ {
        TermColor::Blue
    } else {
        TermColor::White
    }
}

/// The color of a status label.
pub fn status_color(status: &str) -> (r: TermColor)
    ensures
        r == status_color_of(status@),
{
    if str_eq(status, "open") {
        TermColor::Green
    } else if str_eq(status, "in_progress") || str_eq(status, "in-progress") {
        TermColor::Yellow
    } else if str_eq(status, "blocked") {
        TermColor::Red
    } else if str_eq(status, "closed") {
        TermColor::DarkGrey
    } else if str_eq(status, "deferred") {
        TermColor::Blue
    } else {
        TermColor::White
    }
}

pub open spec fn type_color_of(issue_type: Seq<char>) -> TermColor {
    if issue_type == "feature"@ || issue_type == "feat"@ {
        TermColor::Cyan
    } else if issue_type == "epic"@ {
        TermColor::Magenta
    } else if issue_type == "bug"@ {
        TermColor::Red
    } else if issue_type == "task"@ {
        TermColor::Blue
    } else if issue_type == "chore"@ {
        TermColor::Yellow
    } else if issue_type == "merge-request"@ {
        TermColor::Green
    } else {
        TermColor::DarkGrey
    }
}

/// The color of an issue type label.
pub fn type_color(issue_type: &str) -> (r: TermColor)
    ensures
        r == type_color_of(issue_type@),
{
    if str_eq(issue_type, "feature") || str_eq(issue_type, "feat") {
        TermColor::Cyan
    } else if str_eq(issue_type, "epic") {
        TermColor::Magenta
    } else if str_eq(issue_type, "bug") {
        TermColor::Red
    } else if str_eq(issue_type, "task") {
        TermColor::Blue
    } else if str_eq(issue_type, "chore") {
        TermColor::Yellow
    } else if str_eq(issue_type, "merge-request") {
        TermColor::Green
    } else {
        TermColor::DarkGrey
    }
}

/// The separator between table cells.
pub const SEPARATOR: &'static str = " │ ";

/// What a loop leaves of a column of width `v` that it narrows by one column at
/// a time while the row (the column plus `others`) is wider than `usable` and
/// the column is wider than `floor`.
pub open spec fn narrowed(v: int, floor: int, others: int, usable: int) -> int {
    if v + others <= usable || v <= floor {
        v
    } else if usable - others >= floor {
        usable - others
    } else {
        floor
    }
}

/// The widths of the ID, PRIORITY, STATUS, TYPE and NAME columns for a
/// terminal `width` columns wide, separators `sep` columns wide, and IDs
/// `id_hint` columns wide: the ID column takes between 8 and 28 columns, the
/// NAME column the rest; when the row is too narrow the ID, then the STATUS,
/// then the PRIORITY column give way, and past that all five share alike.
pub open spec fn table_widths_of(width: int, id_hint: int, sep: int) -> Seq<int> {
    let usable = if width >= 4 * sep {
        width - 4 * sep
    } else {
        0
    };
    let id0 = if id_hint < 8 {
        8
    } else if id_hint > 28 {
        28
    } else {
        id_hint
    };
    let id = narrowed(id0, 6, 36int, usable);
    let status = narrowed(12, 6, id + 8 + 4 + 12, usable);
    let priority = narrowed(8, 4, id + status + 4 + 12, usable);
    if id + priority + status + 4 > usable {
        let base = usable / 5;
        seq![base, base, base, base, usable - 4 * base]
    } else {
        seq![id, priority, status, 4, usable - id - priority - status - 4]
    }
}

/// The five column widths of the issue table (see `table_widths_of`).
pub fn table_widths(width: usize, id_hint: usize) -> (r: [usize; 5])
    ensures
        r@.map_values(|x: usize| x as int) == table_widths_of(
            width as int,
            id_hint as int,
            text_width(SEPARATOR@) as int,
        ),
{
    let sep = columns(SEPARATOR);
    let usable = if sep > usize::MAX / 4 {
        0
    } else if width >= sep * 4 {
        width - sep * 4
    } else {
        0
    };
    let id0: usize = if id_hint < 8 {
        8
    } else if id_hint > 28 {
        28
    } else {
        id_hint
    };
    let mut id = id0;
    let mut priority: usize = 8;
    let mut status: usize = 12;
    let issue_type: usize = 4;
    let minimum_name: usize = 12;
    while id + priority + status + issue_type + minimum_name > usable && id > 6
        invariant
            6 <= id <= id0 <= 28,
            priority == 8,
            status == 12,
            issue_type == 4,
            minimum_name == 12,
            id < id0 ==> id + 36 >= usable,
        decreases id,
    {
        id = id - 1;
    }
    assert(id == narrowed(id0 as int, 6, 36int, usable as int));
    while id + priority + status + issue_type + minimum_name > usable && status > 6
        invariant
            6 <= id <= 28,
            6 <= status <= 12,
            priority == 8,
            issue_type == 4,
            minimum_name == 12,
            status < 12 ==> id + 24 + status >= usable,
        decreases status,
    {
        status = status - 1;
    }
    assert(status == narrowed(12, 6, id + 8 + 4 + 12, usable as int));
    while id + priority + status + issue_type + minimum_name > usable && priority > 4
        invariant
            6 <= id <= 28,
            6 <= status <= 12,
            4 <= priority <= 8,
            issue_type == 4,
            minimum_name == 12,
            priority < 8 ==> id + status + 16 + priority >= usable,
        decreases priority,
    {
        priority = priority - 1;
    }
    assert(priority == narrowed(8, 4, id + status + 4 + 12, usable as int));
    let r = if id + priority + status + issue_type > usable {
        let base = usable / 5;
        [base, base, base, base, usable - base * 4]
    } else {
        [id, priority, status, issue_type, usable - id - priority - status - issue_type]
    };
    proof {
        assert(r@.map_values(|x: usize| x as int) =~= table_widths_of(
            width as int,
            id_hint as int,
            text_width(SEPARATOR@) as int,
        ));
    }
    r
}

/// A timestamp as the task view shows it: an RFC 3339 time (its eleventh byte
/// is `T`) as its date and minutes, `2024-01-02 03:04`; nothing as `—`; any
/// other text as it is.
pub open spec fn shown_timestamp(t: Seq<char>) -> Seq<char> {
    let b = encode_utf8(t);
    if b.len() >= 16 && b[10] == 84u8 {
        decode_utf8(b.subrange(0, 10)) + seq![' '] + decode_utf8(b.subrange(11, 16))
    } else if t.len() == 0 {
        seq!['—']
    } else {
        t
    }
}

/// Whether the first sixteen bytes of an RFC 3339 time `t` end on a character
/// boundary, so that the minutes can be cut out of it.
pub open spec fn timestamp_cuts_cleanly(t: Seq<char>) -> bool {
    let b = encode_utf8(t);
    b.len() >= 16 && b[10] == 84u8 ==> b.len() == 16 || !is_continuation_byte(b[16])
}

/// A timestamp as the task view shows it (see `shown_timestamp`).
pub fn display_timestamp(timestamp: &str) -> (r: String)
    requires
        timestamp_cuts_cleanly(timestamp@),
    ensures
        r@ == shown_timestamp(timestamp@),
{
    let bytes = timestamp.as_bytes();
    let ghost b = encode_utf8(timestamp@);
    assert(bytes@ == b);
    if bytes.len() >= 16 && bytes[10] == 84u8 {
        proof {
            encode_utf8_valid_utf8(timestamp@);
            assert(bytes@ == b);
            is_char_boundary_iff_not_is_continuation_byte(b, 10);
            assert(is_char_boundary(b, 10));
        }
        let (date, rest) = timestamp.split_at(10);
        let ghost rb = b.subrange(10, b.len() as int);
        proof {
            broadcast use encode_utf8_valid_utf8, encode_utf8_decode_utf8, valid_utf8_split,
                is_char_boundary_iff_not_is_continuation_byte, is_char_boundary_start_end_of_seq;
            assert(rest.spec_bytes() == rb);
            assert(valid_utf8(rb));
            assert(rb[0] == 84u8);
            assert(is_char_boundary(rb, 1)) by {
                reveal_with_fuel(is_char_boundary, 2);
            }
        }
        let (_, tail) = rest.split_at(1);
        let ghost tb = b.subrange(11, b.len() as int);
        proof {
            broadcast use encode_utf8_valid_utf8, encode_utf8_decode_utf8, valid_utf8_split,
                is_char_boundary_iff_not_is_continuation_byte, is_char_boundary_start_end_of_seq;
            assert(tail.spec_bytes() =~= tb);
            assert(valid_utf8(tb));
            if tb.len() > 5 {
                assert(tb[5] == b[16]);
            }
            assert(is_char_boundary(tb, 5));
        }
        let (time, _) = tail.split_at(5);
        proof {
            broadcast use encode_utf8_valid_utf8, encode_utf8_decode_utf8;
            assert(date.spec_bytes() =~= b.subrange(0, 10));
            assert(time.spec_bytes() =~= b.subrange(11, 16));
            assert(date@ == decode_utf8(encode_utf8(date@)));
            assert(time@ == decode_utf8(encode_utf8(time@)));
        }
        let mut out = owned(date);
        push_char(&mut out, ' ');
        push_text(&mut out, time);
        out
    } else if timestamp.is_empty() {
        let mut dash = String::new();
        push_char(&mut dash, '—');
        dash
    } else {
        owned(timestamp)
    }
}

/// How many leading characters of `s`, from position `k` on with `used`
/// columns already taken, go into one piece of a word too wide for its line:
/// always the first; then each that keeps the piece within `w` columns, until
/// the piece reaches `w`.
pub open spec fn piece_len(s: Seq<char>, w: nat, k: nat, used: nat) -> nat
    decreases s.len() - k,
{
    if k >= s.len() {
        k
    } else if k > 0 && used + columns_of(s[k as int]) > w {
        k
    } else if used + columns_of(s[k as int]) >= w {
        k + 1
    } else {
        piece_len(s, w, k + 1, used + columns_of(s[k as int]))
    }
}

proof fn lemma_piece_len_bounds(s: Seq<char>, w: nat, k: nat, used: nat)
    requires
        k <= s.len(),
    ensures
        k <= piece_len(s, w, k, used) <= s.len(),
        k == 0 && s.len() > 0 ==> piece_len(s, w, k, used) >= 1,
    decreases s.len() - k,
{
    if k < s.len() && !(k > 0 && used + columns_of(s[k as int]) > w) && !(used + columns_of(
        s[k as int],
    ) >= w) {
        lemma_piece_len_bounds(s, w, k + 1, used + columns_of(s[k as int]));
    }
}

/// A word wider than `w` columns cut into pieces (see `piece_len`) until what
/// is left fits: the pieces, and what is left.
pub open spec fn split_long(line: Seq<char>, w: nat) -> (Seq<Seq<char>>, Seq<char>)
    decreases line.len(),
{
    if line.len() == 0 || text_width(line) <= w {
        (seq![], line)
    } else {
        let n = piece_len(line, w, 0, 0);
        if 1 <= n <= line.len() {
            let rest = split_long(line.skip(n as int), w);
            (seq![line.take(n as int)] + rest.0, rest.1)
        } else {
            (seq![], line)
        }
    }
}

/// The width of `line` with `word` appended after a space (of `word` alone
/// when the line is empty).
pub open spec fn joined_width(line: Seq<char>, word: Seq<char>) -> int {
    if line.len() == 0 {
        text_width(word) as int
    } else {
        text_width(line) + 1 + text_width(word)
    }
}

/// The words laid out greedily in lines of `w` columns: a word joins the
/// current line when the line stays within `w`; otherwise the line is done and
/// the word starts the next one, cut into pieces if it is wider than `w`.
/// Returns the finished lines and the line under way.
pub open spec fn wrap_words(words: Seq<Seq<char>>, w: nat) -> (Seq<Seq<char>>, Seq<char>)
    decreases words.len(),
{
    if words.len() == 0 {
        (seq![], seq![])
    } else {
        let prev = wrap_words(words.drop_last(), w);
        let line = prev.1;
        let word = words.last();
        if joined_width(line, word) <= w {
            (
                prev.0,
                if line.len() == 0 {
                    word
                } else {
                    line + seq![' '] + word
                },
            )
        } else {
            let done = if line.len() > 0 {
                prev.0.push(line)
            } else {
                prev.0
            };
            let cut = split_long(word, w);
            (done + cut.0, cut.1)
        }
    }
}

/// One line of text wrapped to `w` columns; a blank one stays one empty line.
pub open spec fn wrapped_paragraph(p: Seq<char>, w: nat) -> Seq<Seq<char>> {
    if is_blank(p) {
        seq![seq![]]
    } else {
        let r = wrap_words(words_of(p), w);
        if r.1.len() > 0 {
            r.0.push(r.1)
        } else {
            r.0
        }
    }
}

pub open spec fn wrapped_paragraphs(ps: Seq<Seq<char>>, w: nat) -> Seq<Seq<char>>
    decreases ps.len(),
{
    if ps.len() == 0 {
        seq![]
    } else {
        wrapped_paragraphs(ps.drop_last(), w) + wrapped_paragraph(ps.last(), w)
    }
}

/// `value` wrapped to `width` columns (at least one), line by line; empty text
/// is one empty line.
pub open spec fn wrapped(value: Seq<char>, width: nat) -> Seq<Seq<char>> {
    if value.len() == 0 {
        seq![seq![]]
    } else {
        wrapped_paragraphs(
            lines_of(value),
            if width == 0 {
                1
            } else {
                width
            },
        )
    }
}

/// Cuts the pieces of `word` that are too wide for `w` columns onto `out`;
/// returns what is left.
fn cut_long_word(word: String, w: usize, out: &mut Vec<String>) -> (rest: String)
    requires
        w >= 1,
    ensures
        string_views(final(out)@) == string_views(old(out)@) + split_long(word@, w as nat).0,
        rest@ == split_long(word@, w as nat).1,
{
    let mut line = word;
    proof {
        assert(string_views(out@) + split_long(line@, w as nat).0 =~= string_views(old(out)@)
            + split_long(word@, w as nat).0);
    }
    while columns(line.as_str()) > w
        invariant
            w >= 1,
            string_views(out@) + split_long(line@, w as nat).0 == string_views(old(out)@)
                + split_long(word@, w as nat).0,
            split_long(line@, w as nat).1 == split_long(word@, w as nat).1,
        decreases line@.len(),
    {
        let chars = chars_of(line.as_str());
        let ghost l = line@;
        let mut used: usize = 0;
        let mut consumed: usize = 0;
        let mut open = true;
        proof {
            lemma_piece_len_bounds(l, w as nat, 0, 0);
        }
        while open && consumed < chars.len()
            invariant
                chars@ == l,
                consumed <= chars@.len(),
                open && consumed > 0 ==> used < w,
                consumed == 0 ==> used == 0,
                open ==> piece_len(l, w as nat, consumed as nat, used as nat) == piece_len(
                    l,
                    w as nat,
                    0,
                    0,
                ),
                !open ==> consumed == piece_len(l, w as nat, 0, 0),
            decreases chars@.len() - consumed + if open {
                1int
            } else {
                0int
            },
        {
            let cw = char_columns_or_zero(chars[consumed]);
            if consumed > 0 && cw > w - used {
                open = false;
            } else if cw >= w - used {
                consumed = consumed + 1;
                open = false;
            } else {
                used = used + cw;
                consumed = consumed + 1;
            }
        }
        let ghost before = string_views(out@);
        let piece = string_from(&chars, 0, consumed);
        let left = string_from(&chars, consumed, chars.len());
        proof {
            assert(l.len() > 0);
            assert(consumed == piece_len(l, w as nat, 0, 0));
            assert(piece@ =~= l.take(consumed as int));
            assert(left@ =~= l.skip(consumed as int));
        }
        out.push(piece);
        proof {
            assert(string_views(out@) =~= before.push(piece@));
        }
        line = left;
    }
    line
}

/// Lays out the non-blank line `p` in lines of `w` columns onto `out`.
fn wrap_paragraph(p: &str, w: usize, out: &mut Vec<String>)
    requires
        w >= 1,
        !is_blank(p@),
    ensures
        string_views(final(out)@) == string_views(old(out)@) + wrapped_paragraph(p@, w as nat),
{
    let words = split_words(p);
    let ghost wv = string_views(words@);
    let ghost start = string_views(out@);
    let mut done: Vec<String> = Vec::new();
    let mut line = String::new();
    let mut k: usize = 0;
    proof {
        assert(wv.take(0) =~= Seq::<Seq<char>>::empty());
    }
    while k < words.len()
        invariant
            w >= 1,
            wv == string_views(words@),
            k <= words@.len(),
            (string_views(done@), line@) == wrap_words(wv.take(k as int), w as nat),
        decreases words@.len() - k,
    {
        let word = &words[k];
        proof {
            assert(wv.take(k + 1).drop_last() =~= wv.take(k as int));
            assert(wv.take(k + 1).last() == word@);
        }
        let word_width = columns(word.as_str()) as u128;
        let next: u128 = if line.as_str().is_empty() {
            word_width
        } else {
            columns(line.as_str()) as u128 + 1 + word_width
        };
        if next <= w as u128 {
            if !line.as_str().is_empty() {
                push_char(&mut line, ' ');
            }
            push_text(&mut line, word.as_str());
        } else {
            let ghost before = string_views(done@);
            if !line.as_str().is_empty() {
                done.push(line);
                proof {
                    assert(string_views(done@) =~= before.push(wrap_words(wv.take(k as int), w as nat).1));
                }
            }
            line = cut_long_word(word.clone(), w, &mut done);
        }
        k = k + 1;
    }
    proof {
        assert(wv.take(words@.len() as int) =~= wv);
    }
    if !line.as_str().is_empty() {
        let ghost before = string_views(done@);
        done.push(line);
        proof {
            assert(string_views(done@) =~= before.push(wrap_words(wv, w as nat).1));
        }
    }
    let mut i: usize = 0;
    let ghost ds = string_views(done@);
    while i < done.len()
        invariant
            ds == string_views(done@),
            i <= done@.len(),
            string_views(out@) == start + ds.take(i as int),
        decreases done@.len() - i,
    {
        let ghost before = string_views(out@);
        out.push(done[i].clone());
        i = i + 1;
        proof {
            assert(string_views(out@) =~= before.push(ds[i - 1]));
            assert(ds.take(i as int) =~= ds.take(i - 1).push(ds[i - 1]));
        }
    }
    proof {
        assert(ds.take(done@.len() as int) =~= ds);
    }
}

/// `value` wrapped to `width` columns (see `wrapped`).
pub fn wrap(value: &str, width: usize) -> (r: Vec<String>)
    ensures
        string_views(r@) == wrapped(value@, width as nat),
{
    let mut result: Vec<String> = Vec::new();
    if value.is_empty() {
        result.push(String::new());
        proof {
            assert(string_views(result@) =~= seq![Seq::<char>::empty()]);
        }
        return result;
    }
    let width = if width == 0 {
        1
    } else {
        width
    };
    let paragraphs = split_lines(value);
    let ghost pv = string_views(paragraphs@);
    let mut k: usize = 0;
    proof {
        assert(pv.take(0) =~= Seq::<Seq<char>>::empty());
        assert(string_views(result@) =~= Seq::<Seq<char>>::empty());
    }
    while k < paragraphs.len()
        invariant
            width >= 1,
            pv == string_views(paragraphs@),
            k <= paragraphs@.len(),
            string_views(result@) == wrapped_paragraphs(pv.take(k as int), width as nat),
        decreases paragraphs@.len() - k,
    {
        let paragraph = &paragraphs[k];
        proof {
            assert(pv.take(k + 1).drop_last() =~= pv.take(k as int));
            assert(pv.take(k + 1).last() == paragraph@);
        }
        if is_blank_text(paragraph.as_str()) {
            let ghost before = string_views(result@);
            result.push(String::new());
            proof {
                assert(string_views(result@) =~= before + seq![Seq::<char>::empty()]);
            }
        } else {
            wrap_paragraph(paragraph.as_str(), width, &mut result);
        }
        k = k + 1;
    }
    proof {
        assert(pv.take(paragraphs@.len() as int) =~= pv);
    }
    result
}

/// How a line of the task view is drawn.
#[derive(Clone, Copy, Debug, PartialEq, Eq, Structural)]
pub enum LineStyle {
    Plain,
    Bold,
    Dim,
    Header,
    Selected,
    Dependency,
}

/// A line of the task view; `dependency` is the index of the dependency it
/// shows, if it shows one.
pub struct DetailLine {
    pub text: String,
    pub style: LineStyle,
    pub dependency: Option<usize>,
}

pub struct DetailLineView {
    pub text: Seq<char>,
    pub style: LineStyle,
    pub dependency: Option<usize>,
}

impl View for DetailLine {
    type V = DetailLineView;

    open spec fn view(&self) -> DetailLineView {
        DetailLineView { text: self.text@, style: self.style, dependency: self.dependency }
    }
}

pub open spec fn detail_line_views(lines: Seq<DetailLine>) -> Seq<DetailLineView> {
    lines.map_values(|l: DetailLine| l@)
}

pub open spec fn text_line(text: Seq<char>, style: LineStyle) -> DetailLineView {
    DetailLineView { text, style, dependency: None }
}

pub open spec fn blank_line() -> DetailLineView {
    text_line(seq![], LineStyle::Plain)
}

/// An empty plain line.
pub fn blank() -> (r: DetailLine)
    ensures
        r@ == blank_line(),
{
    DetailLine { text: String::new(), style: LineStyle::Plain, dependency: None }
}

pub open spec fn styled(texts: Seq<Seq<char>>, style: LineStyle) -> Seq<DetailLineView> {
    texts.map_values(|t: Seq<char>| text_line(t, style))
}

/// The first line of the task view: ID, priority, status and type.
pub open spec fn heading_of(issue: IssueView) -> Seq<char> {
    issue.id + "  [P"@ + int_text(issue.priority as int) + "]  "@ + issue.status + "  "@
        + short_type_of(issue.issue_type)
}

/// The line of the dependency at `index`: arrow, ID, status, title and, when
/// it has one, the kind of dependency.
pub open spec fn dependency_text(d: DependencyView) -> Seq<char> {
    "  → "@ + d.id + " ["@ + d.status + "] "@ + d.title + if d.dependency_type.len() == 0 {
        seq![]
    } else {
        " ("@ + d.dependency_type + ")"@
    }
}

pub open spec fn dependency_lines(deps: Seq<DependencyView>, selected: usize) -> Seq<
    DetailLineView,
> {
    Seq::new(
        deps.len(),
        |i: int|
            DetailLineView {
                text: dependency_text(deps[i]),
                style: if i == selected {
                    LineStyle::Selected
                } else {
                    LineStyle::Dependency
                },
                dependency: Some(i as usize),
            },
    )
}

/// The lines of the task view of `issue` for a terminal `width` columns wide,
/// with the dependency at `selected` highlighted: heading, wrapped title,
/// wrapped description (when it is not blank), times, and dependencies.
pub open spec fn detail_lines_of(issue: IssueView, width: nat, selected: usize) -> Seq<
    DetailLineView,
> {
    seq![text_line(heading_of(issue), LineStyle::Header), blank_line()] + styled(
        wrapped(issue.title, width),
        LineStyle::Bold,
    ) + (if is_blank(issue.description) {
        seq![]
    } else {
        seq![blank_line()] + styled(wrapped(issue.description, width), LineStyle::Plain)
    }) + seq![
        blank_line(),
        text_line("Created:  "@ + shown_timestamp(issue.created_at), LineStyle::Dim),
        text_line("Updated:  "@ + shown_timestamp(issue.updated_at), LineStyle::Dim),
        blank_line(),
        text_line("Dependencies:"@, LineStyle::Bold),
    ] + if issue.dependencies.len() == 0 {
        seq![text_line("  none"@, LineStyle::Dim)]
    } else {
        dependency_lines(issue.dependencies, selected)
    }
}

/// Appends each of `texts` as a line in `style`.
fn push_styled(lines: &mut Vec<DetailLine>, texts: Vec<String>, style: LineStyle)
    ensures
        detail_line_views(final(lines)@) == detail_line_views(old(lines)@) + styled(
            string_views(texts@),
            style,
        ),
{
    let ghost start = detail_line_views(lines@);
    let ghost tv = string_views(texts@);
    let mut k: usize = 0;
    while k < texts.len()
        invariant
            tv == string_views(texts@),
            k <= texts@.len(),
            detail_line_views(lines@) == start + styled(tv.take(k as int), style),
        decreases texts@.len() - k,
    {
        let ghost before = detail_line_views(lines@);
        let text = texts[k].clone();
        lines.push(DetailLine { text, style, dependency: None });
        k = k + 1;
        proof {
            assert(text@ == tv[k - 1]);
            assert(detail_line_views(lines@) =~= before.push(text_line(tv[k - 1], style)));
            assert(styled(tv.take(k as int), style) =~= styled(tv.take(k - 1), style).push(
                text_line(tv[k - 1], style),
            ));
            assert(detail_line_views(lines@) =~= start + styled(tv.take(k as int), style));
        }
    }
    proof {
        assert(tv.take(texts@.len() as int) =~= tv);
    }
}

fn text_of(parts: &str) -> (r: String)
    ensures
        r@ == parts@,
{
    owned(parts)
}

/// The lines of the task view (see `detail_lines_of`).
pub fn detail_lines(issue: &Issue, width: usize, selected_dependency: usize) -> (r: Vec<DetailLine>)
    requires
        timestamp_cuts_cleanly(issue.created_at@),
        timestamp_cuts_cleanly(issue.updated_at@),
    ensures
        detail_line_views(r@) == detail_lines_of(issue@, width as nat, selected_dependency),
{
    let mut lines: Vec<DetailLine> = Vec::new();
    let mut heading = issue.id.clone();
    push_text(&mut heading, "  [P");
    push_int(&mut heading, issue.priority as i64);
    push_text(&mut heading, "]  ");
    push_text(&mut heading, issue.status.as_str());
    push_text(&mut heading, "  ");
    let label = short_type(issue.issue_type.as_str());
    push_text(&mut heading, label.as_str());
    lines.push(DetailLine { text: heading, style: LineStyle::Header, dependency: None });
    lines.push(blank());
    let ghost head = detail_line_views(lines@);
    proof {
        assert(head =~= seq![text_line(heading_of(issue@), LineStyle::Header), blank_line()]);
    }
    push_styled(&mut lines, wrap(issue.title.as_str(), width), LineStyle::Bold);
    let ghost with_title = detail_line_views(lines@);
    if !is_blank_text(issue.description.as_str()) {
        lines.push(blank());
        push_styled(&mut lines, wrap(issue.description.as_str(), width), LineStyle::Plain);
    }
    let ghost with_description = detail_line_views(lines@);
    proof {
        if is_blank(issue.description@) {
            assert(with_description =~= with_title + seq![]);
        } else {
            assert(with_description =~= with_title + (seq![blank_line()] + styled(
                wrapped(issue.description@, width as nat),
                LineStyle::Plain,
            )));
        }
    }
    lines.push(blank());
    let mut created = text_of("Created:  ");
    let shown = display_timestamp(issue.created_at.as_str());
    push_text(&mut created, shown.as_str());
    lines.push(DetailLine { text: created, style: LineStyle::Dim, dependency: None });
    let mut updated = text_of("Updated:  ");
    let shown = display_timestamp(issue.updated_at.as_str());
    push_text(&mut updated, shown.as_str());
    lines.push(DetailLine { text: updated, style: LineStyle::Dim, dependency: None });
    lines.push(blank());
    lines.push(
        DetailLine { text: text_of("Dependencies:"), style: LineStyle::Bold, dependency: None },
    );
    let ghost middle = detail_line_views(lines@);
    let deps = &issue.dependencies;
    let ghost dv = dependency_views(deps@);
    if deps.len() == 0 {
        lines.push(DetailLine { text: text_of("  none"), style: LineStyle::Dim, dependency: None });
        proof {
            assert(detail_line_views(lines@) =~= middle + seq![text_line("  none"@, LineStyle::Dim)]);
        }
    } else {
        let mut index: usize = 0;
        while index < deps.len()
            invariant
                dv == dependency_views(deps@),
                index <= deps@.len(),
                detail_line_views(lines@) == middle + dependency_lines(dv, selected_dependency).take(
                    index as int,
                ),
            decreases deps@.len() - index,
        {
            let dependency = &deps[index];
            let mut text = text_of("  → ");
            push_text(&mut text, dependency.id.as_str());
            push_text(&mut text, " [");
            push_text(&mut text, dependency.status.as_str());
            push_text(&mut text, "] ");
            push_text(&mut text, dependency.title.as_str());
            if !dependency.dependency_type.as_str().is_empty() {
                push_text(&mut text, " (");
                push_text(&mut text, dependency.dependency_type.as_str());
                push_text(&mut text, ")");
            }
            let style = if index == selected_dependency {
                LineStyle::Selected
            } else {
                LineStyle::Dependency
            };
            let ghost before = detail_line_views(lines@);
            lines.push(DetailLine { text, style, dependency: Some(index) });
            proof {
                assert(text@ =~= dependency_text(dv[index as int]));
                assert(dependency_lines(dv, selected_dependency).take(index + 1) =~= dependency_lines(
                    dv,
                    selected_dependency,
                ).take(index as int).push(dependency_lines(dv, selected_dependency)[index as int]));
                assert(detail_line_views(lines@) =~= before.push(
                    dependency_lines(dv, selected_dependency)[index as int],
                ));
            }
            index = index + 1;
        }
        proof {
            assert(dependency_lines(dv, selected_dependency).take(deps@.len() as int)
                =~= dependency_lines(dv, selected_dependency));
        }
    }
    proof {
        assert(detail_line_views(lines@) =~= detail_lines_of(issue@, width as nat, selected_dependency));
    }
    lines
}

/// The first of the lines that shows the dependency at `selected`.
pub open spec fn dependency_line_index(lines: Seq<DetailLineView>, selected: usize) -> Option<int>
    decreases lines.len(),
{
    if lines.len() == 0 {
        None
    } else {
        match dependency_line_index(lines.drop_last(), selected) {
            Some(k) => Some(k),
            None => if lines.last().dependency == Some(selected) {
                Some(lines.len() - 1)
            } else {
                None
            },
        }
    }
}

proof fn lemma_dependency_line_index(lines: Seq<DetailLineView>, selected: usize)
    ensures
        match dependency_line_index(lines, selected) {
            Some(k) => 0 <= k < lines.len() && lines[k].dependency == Some(selected) && forall|m: int|
                0 <= m < k ==> (#[trigger] lines[m]).dependency != Some(selected),
            None => forall|m: int|
                0 <= m < lines.len() ==> (#[trigger] lines[m]).dependency != Some(selected),
        },
    decreases lines.len(),
{
    if lines.len() > 0 {
        lemma_dependency_line_index(lines.drop_last(), selected);
        assert forall|m: int| 0 <= m < lines.len() - 1 implies lines[m] == lines.drop_last()[m] by {}
    }
}

/// The first line the task view shows: the `scroll` kept from before, brought
/// back so the view is not scrolled past its end, then moved the least that
/// brings the selected dependency into the `visible` lines.
pub open spec fn detail_scroll_of(
    lines: Seq<DetailLineView>,
    visible: nat,
    selected: usize,
    scroll: nat,
) -> nat {
    let max_scroll = if lines.len() >= visible {
        (lines.len() - visible) as nat
    } else {
        0
    };
    let kept = if scroll <= max_scroll {
        scroll
    } else {
        max_scroll
    };
    match dependency_line_index(lines, selected) {
        Some(k) => if k < kept {
            k as nat
        } else if visible > 0 && k >= kept + visible {
            (k + 1 - visible) as nat
        } else {
            kept
        },
        None => kept,
    }
}

/// The first line the task view shows (see `detail_scroll_of`).
pub fn fit_detail_scroll(
    lines: &Vec<DetailLine>,
    visible: usize,
    selected_dependency: usize,
    scroll: usize,
) -> (r: usize)
    ensures
        r == detail_scroll_of(
            detail_line_views(lines@),
            visible as nat,
            selected_dependency,
            scroll as nat,
        ),
{
    let ghost lv = detail_line_views(lines@);
    proof {
        lemma_dependency_line_index(lv, selected_dependency);
    }
    let max_scroll = if lines.len() >= visible {
        lines.len() - visible
    } else {
        0
    };
    let mut result = if scroll <= max_scroll {
        scroll
    } else {
        max_scroll
    };
    let mut k: usize = 0;
    let mut found: Option<usize> = None;
    while found.is_none() && k < lines.len()
        invariant
            lv == detail_line_views(lines@),
            k <= lines@.len(),
            found is None ==> forall|m: int| 0 <= m < k ==> (#[trigger] lv[m]).dependency != Some(
                selected_dependency,
            ),
            found matches Some(j) ==> dependency_line_index(lv, selected_dependency) == Some(
                j as int,
            ),
        decreases lines@.len() - k + if found is None {
            1int
        } else {
            0int
        },
    {
        if lines[k].dependency == Some(selected_dependency) {
            proof {
                lemma_dependency_line_index(lv, selected_dependency);
                assert(lv[k as int].dependency == Some(selected_dependency));
                match dependency_line_index(lv, selected_dependency) {
                    Some(j) => {
                        if j < k {
                            assert(lv[j].dependency != Some(selected_dependency));
                        } else if j > k {
                            assert(lv[k as int].dependency != Some(selected_dependency));
                        }
                    },
                    None => {
                        assert(lv[k as int].dependency != Some(selected_dependency));
                    },
                }
            }
            found = Some(k);
        } else {
            k = k + 1;
        }
    }
    proof {
        if found is None {
            match dependency_line_index(lv, selected_dependency) {
                Some(j) => {
                    assert(lv[j].dependency != Some(selected_dependency));
                },
                None => {},
            }
        }
    }
    if let Some(selected) = found {
        if selected < result {
            result = selected;
        } else if visible > 0 && selected - result >= visible {
            result = selected + 1 - visible;
        }
    }
    result
}

/// A line of the task view as drawn `width` columns wide: truncated, and the
/// selected line filled out with spaces (by the width of its untruncated text).
pub open spec fn shown_detail_line(line: DetailLineView, width: nat) -> Seq<char> {
    let used = if text_width(line.text) <= width {
        text_width(line.text) as nat
    } else {
        width
    };
    truncated(line.text, width) + if line.style == LineStyle::Selected {
        spaces((width - used) as nat)
    } else {
        seq![]
    }
}

/// A line of the task view as drawn (see `shown_detail_line`).
pub fn show_detail_line(line: &DetailLine, width: usize) -> (r: String)
    ensures
        r@ == shown_detail_line(line@, width as nat),
{
    let mut out = truncate(line.text.as_str(), width);
    if line.style == LineStyle::Selected {
        let text_columns = columns(line.text.as_str());
        let used = if text_columns <= width {
            text_columns
        } else {
            width
        };
        push_spaces(&mut out, width - used);
    } else {
        proof {
            assert(out@ =~= out@ + Seq::<char>::empty());
        }
    }
    out
}

/// The key hints at the foot of the task view; `x close` only where the issue
/// can be closed.
pub open spec fn detail_footer_of(can_close: bool) -> Seq<char> {
    if can_close {
        "+ add child · j/k dependency · Enter open · e description · et title · x close · Backspace back · Esc tree · q quit"@
    } else {
        "+ add child · j/k dependency · Enter open · e description · et title · Backspace back · Esc tree · q quit"@
    }
}

/// The key hints at the foot of the task view (see `detail_footer_of`).
pub fn detail_footer(can_close: bool) -> (r: String)
    ensures
        r@ == detail_footer_of(can_close),
{
    if can_close {
        text_of(
            "+ add child · j/k dependency · Enter open · e description · et title · x close · Backspace back · Esc tree · q quit",
        )
    } else {
        text_of(
            "+ add child · j/k dependency · Enter open · e description · et title · Backspace back · Esc tree · q quit",
        )
    }
}

/// `n` copies of `c`.
pub open spec fn repeated(c: char, n: nat) -> Seq<char> {
    Seq::new(n, |i: int| c)
}

fn push_repeated(out: &mut String, c: char, n: usize)
    ensures
        final(out)@ == old(out)@ + repeated(c, n as nat),
{
    let mut k: usize = 0;
    while k < n
        invariant
            k <= n,
            out@ == old(out)@ + repeated(c, k as nat),
        decreases n - k,
    {
        push_char(out, c);
        k = k + 1;
        assert(out@ =~= old(out)@ + repeated(c, k as nat));
    }
}

/// The widest of the first `n` of `lines`, in columns (0 for none).
pub open spec fn widest(lines: Seq<Seq<char>>, n: nat) -> nat
    decreases n,
{
    if n == 0 || n > lines.len() {
        0
    } else {
        let before = widest(lines, (n - 1) as nat);
        let w = text_width(lines[n - 1]) as nat;
        if w > before {
            w
        } else {
            before
        }
    }
}

/// A line of a modal: where it starts, its text (already fitted to the
/// modal's width), and whether it is part of the frame.
pub struct ModalRow {
    pub x: usize,
    pub y: usize,
    pub text: String,
    pub border: bool,
}

pub struct ModalRowView {
    pub x: usize,
    pub y: usize,
    pub text: Seq<char>,
    pub border: bool,
}

impl View for ModalRow {
    type V = ModalRowView;

    open spec fn view(&self) -> ModalRowView {
        ModalRowView { x: self.x, y: self.y, text: self.text@, border: self.border }
    }
}

/// Where and how a modal is drawn: not at all on an empty terminal; on a tiny
/// one, as its first line (or else its title) on the bottom row; otherwise as a
/// framed box centred on the screen.
pub enum ModalLayout {
    Hidden,
    Fallback { y: u16, text: String },
    Framed(Vec<ModalRow>),
}

pub enum ModalLayoutView {
    Hidden,
    Fallback { y: u16, text: Seq<char> },
    Framed(Seq<ModalRowView>),
}

impl View for ModalLayout {
    type V = ModalLayoutView;

    open spec fn view(&self) -> ModalLayoutView {
        match self {
            ModalLayout::Hidden => ModalLayoutView::Hidden,
            ModalLayout::Fallback { y, text } => ModalLayoutView::Fallback { y: *y, text: text@ },
            ModalLayout::Framed(rows) => ModalLayoutView::Framed(
                rows@.map_values(|r: ModalRow| r@),
            ),
        }
    }
}

/// The top of the frame: the title, when it fits, then the rule.
pub open spec fn top_border(title: Seq<char>, inner: nat) -> Seq<char> {
    if text_width(title) <= inner {
        seq!['╭'] + title + repeated('─', (inner - text_width(title)) as nat) + seq!['╮']
    } else {
        seq!['╭'] + repeated('─', inner) + seq!['╮']
    }
}

/// A line inside the frame, truncated to `content` columns and filled out.
pub open spec fn modal_body(line: Seq<char>, content: nat) -> Seq<char> {
    let t = truncated(line, content);
    seq!['│', ' '] + t + spaces(
        if text_width(t) <= content {
            (content - text_width(t)) as nat
        } else {
            0
        },
    ) + seq![' ', '│']
}

pub open spec fn modal_row(x: int, y: int, text: Seq<char>, border: bool) -> ModalRowView {
    ModalRowView { x: x as usize, y: y as usize, text, border }
}

/// The rows of a framed modal `modal_width` columns wide whose top left corner
/// is at (`left`, `top`), showing the first `visible` of `lines`.
pub open spec fn framed_rows(
    title: Seq<char>,
    lines: Seq<Seq<char>>,
    visible: nat,
    modal_width: nat,
    left: int,
    top: int,
) -> Seq<ModalRowView> {
    let inner = (modal_width - 2) as nat;
    let content = (inner - 2) as nat;
    seq![modal_row(left, top, padded(top_border(title, inner), modal_width), true)] + Seq::new(
        visible,
        |i: int|
            modal_row(left, top + i + 1, padded(modal_body(lines[i], content), modal_width), false),
    ) + seq![
        modal_row(
            left,
            top + visible + 1,
            padded(seq!['╰'] + repeated('─', inner) + seq!['╯'], modal_width),
            true,
        ),
    ]
}

/// The layout of a modal with `title` and `lines` on a `width` by `height`
/// terminal: as many lines as fit between the frame's two rules, the box as
/// wide as its widest line or title plus four (within the screen, at least
/// four), and centred.
pub open spec fn modal_layout_of(width: u16, height: u16, title: Seq<char>, lines: Seq<Seq<char>>) -> ModalLayoutView {
    if width == 0 || height == 0 {
        ModalLayoutView::Hidden
    } else if width < 4 || height < 3 {
        ModalLayoutView::Fallback {
            y: (height - 1) as u16,
            text: truncated(
                if lines.len() > 0 {
                    lines[0]
                } else {
                    title
                },
                width as nat,
            ),
        }
    } else {
        let visible = if lines.len() <= height - 2 {
            lines.len()
        } else {
            (height - 2) as nat
        };
        let widest_line = if widest(lines, visible) >= text_width(title) {
            widest(lines, visible)
        } else {
            text_width(title) as nat
        };
        let desired: int = if widest_line + 4 <= usize::MAX {
            widest_line + 4int
        } else {
            usize::MAX as int
        };
        let modal_width = if desired <= width {
            desired
        } else {
            width as int
        };
        ModalLayoutView::Framed(
            framed_rows(
                title,
                lines,
                visible,
                modal_width as nat,
                (width - modal_width) / 2,
                (height - (visible + 2)) / 2,
            ),
        )
    }
}

pub open spec fn modal_row_views(rows: Seq<ModalRow>) -> Seq<ModalRowView> {
    rows.map_values(|r: ModalRow| r@)
}

/// The rows of a framed modal (see `framed_rows`).
fn frame_rows(
    title: &str,
    lines: &Vec<String>,
    visible: usize,
    modal_width: usize,
    left: usize,
    top: usize,
) -> (r: Vec<ModalRow>)
    requires
        visible <= lines@.len(),
        modal_width >= 4,
        top + visible + 2 <= usize::MAX,
    ensures
        modal_row_views(r@) == framed_rows(
            title@,
            string_views(lines@),
            visible as nat,
            modal_width as nat,
            left as int,
            top as int,
        ),
{
    let ghost lv = string_views(lines@);
    let ghost fr = framed_rows(
        title@,
        lv,
        visible as nat,
        modal_width as nat,
        left as int,
        top as int,
    );
    let inner = modal_width - 2;
    let content = inner - 2;
    let title_width = columns(title);
    let mut rows: Vec<ModalRow> = Vec::new();
    let mut top_line = String::new();
    push_char(&mut top_line, '╭');
    if title_width <= inner {
        push_text(&mut top_line, title);
        push_repeated(&mut top_line, '─', inner - title_width);
    } else {
        push_repeated(&mut top_line, '─', inner);
    }
    push_char(&mut top_line, '╮');
    proof {
        assert(top_line@ =~= top_border(title@, inner as nat));
    }
    rows.push(ModalRow { x: left, y: top, text: pad(top_line.as_str(), modal_width), border: true });
    proof {
        assert(fr.len() == visible + 2);
        assert(modal_row_views(rows@) =~= fr.take(1));
    }
    let mut i: usize = 0;
    while i < visible
        invariant
            lv == string_views(lines@),
            visible <= lines@.len(),
            top + visible + 2 <= usize::MAX,
            content + 4 == modal_width,
            i <= visible,
            fr == framed_rows(
                title@,
                lv,
                visible as nat,
                modal_width as nat,
                left as int,
                top as int,
            ),
            modal_row_views(rows@) == fr.take(i + 1),
        decreases visible - i,
    {
        let body_text = truncate(lines[i].as_str(), content);
        let used = columns(body_text.as_str());
        let mut body = String::new();
        push_char(&mut body, '│');
        push_char(&mut body, ' ');
        push_text(&mut body, body_text.as_str());
        push_spaces(
            &mut body,
            if used <= content {
                content - used
            } else {
                0
            },
        );
        push_char(&mut body, ' ');
        push_char(&mut body, '│');
        proof {
            assert(body@ =~= modal_body(lv[i as int], content as nat));
        }
        let ghost before = modal_row_views(rows@);
        rows.push(
            ModalRow { x: left, y: top + i + 1, text: pad(body.as_str(), modal_width), border: false },
        );
        proof {
            assert(fr[i + 1] == modal_row(
                left as int,
                top + i + 1,
                padded(modal_body(lv[i as int], content as nat), modal_width as nat),
                false,
            ));
            assert(modal_row_views(rows@) =~= before.push(fr[i + 1]));
            assert(fr.take(i + 2) =~= fr.take(i + 1).push(fr[i + 1]));
        }
        i = i + 1;
    }
    let mut bottom = String::new();
    push_char(&mut bottom, '╰');
    push_repeated(&mut bottom, '─', inner);
    push_char(&mut bottom, '╯');
    let ghost before = modal_row_views(rows@);
    rows.push(
        ModalRow {
            x: left,
            y: top + visible + 1,
            text: pad(bottom.as_str(), modal_width),
            border: true,
        },
    );
    proof {
        assert(bottom@ =~= seq!['╰'] + repeated('─', inner as nat) + seq!['╯']);
        assert(modal_row_views(rows@) =~= before.push(fr[visible + 1]));
        assert(fr.take(visible + 2) =~= fr);
    }
    rows
}

/// The layout of a modal (see `modal_layout_of`).
pub fn modal_layout(width: u16, height: u16, title: &str, lines: &Vec<String>) -> (r: ModalLayout)
    ensures
        r@ == modal_layout_of(width, height, title@, string_views(lines@)),
{
    let ghost lv = string_views(lines@);
    if width == 0 || height == 0 {
        return ModalLayout::Hidden;
    }
    if width < 4 || height < 3 {
        let text = if lines.len() > 0 {
            truncate(lines[0].as_str(), width as usize)
        } else {
            truncate(title, width as usize)
        };
        return ModalLayout::Fallback { y: height - 1, text };
    }
    let room = (height - 2) as usize;
    let visible = if lines.len() <= room {
        lines.len()
    } else {
        room
    };
    let mut widest_line: usize = 0;
    let mut k: usize = 0;
    while k < visible
        invariant
            lv == string_views(lines@),
            visible <= lines@.len(),
            k <= visible,
            widest_line == widest(lv, k as nat),
        decreases visible - k,
    {
        let w = columns(lines[k].as_str());
        if w > widest_line {
            widest_line = w;
        }
        k = k + 1;
    }
    let title_width = columns(title);
    if title_width > widest_line {
        widest_line = title_width;
    }
    let desired = if widest_line <= usize::MAX - 4 {
        widest_line + 4
    } else {
        usize::MAX
    };
    let modal_width = if desired <= width as usize {
        desired
    } else {
        width as usize
    };
    let left = (width as usize - modal_width) / 2;
    let top = (height as usize - (visible + 2)) / 2;
    let rows = frame_rows(title, lines, visible, modal_width, left, top);
    ModalLayout::Framed(rows)
}

/// The title and lines of the modal that asks before closing `issue_id`.
pub fn close_confirmation_modal(issue_id: &str) -> (r: (String, Vec<String>))
    ensures
        r.0@ == " Confirm close "@,
        string_views(r.1@) == seq!["Close issue "@ + issue_id@ + "?"@, seq![], "[y] Yes    [n/Esc] No"@],
{
    let mut question = text_of("Close issue ");
    push_text(&mut question, issue_id);
    push_text(&mut question, "?");
    let mut lines: Vec<String> = Vec::new();
    lines.push(question);
    lines.push(String::new());
    lines.push(text_of("[y] Yes    [n/Esc] No"));
    proof {
        assert(string_views(lines@) =~= seq![
            "Close issue "@ + issue_id@ + "?"@,
            seq![],
            "[y] Yes    [n/Esc] No"@,
        ]);
    }
    (text_of(" Confirm close "), lines)
}

/// The title and lines of the modal that asks before discarding a new issue.
pub fn cancel_confirmation_modal() -> (r: (String, Vec<String>))
    ensures
        r.0@ == " Discard new issue? "@,
        string_views(r.1@) == seq![
            "The issue has not been created."@,
            seq![],
            "[y] Discard    [n/Esc] Keep editing"@,
        ],
{
    let mut lines: Vec<String> = Vec::new();
    lines.push(text_of("The issue has not been created."));
    lines.push(String::new());
    lines.push(text_of("[y] Discard    [n/Esc] Keep editing"));
    proof {
        assert(string_views(lines@) =~= seq![
            "The issue has not been created."@,
            seq![],
            "[y] Discard    [n/Esc] Keep editing"@,
        ]);
    }
    (text_of(" Discard new issue? "), lines)
}

/// `s` with each line break shown as ` ↵ `.
pub open spec fn marked_breaks(s: Seq<char>) -> Seq<char>
    decreases s.len(),
{
    if s.len() == 0 {
        seq![]
    } else {
        marked_breaks(s.drop_last()) + if s.last() == '\n' {
            " ↵ "@
        } else {
            seq![s.last()]
        }
    }
}

/// The choice marker of a menu line.
pub open spec fn choice_marker(selected: bool) -> Seq<char> {
    if selected {
        "›"@
    } else {
        " "@
    }
}

pub open spec fn type_choices(selected: usize) -> Seq<Seq<char>> {
    Seq::new(6, |i: int| choice_marker(i == selected) + " "@ + ISSUE_TYPES[i]@)
}

pub open spec fn priority_choices(selected: usize) -> Seq<Seq<char>> {
    Seq::new(
        5,
        |i: int|
            choice_marker(i == selected) + " P"@ + int_text(PRIORITIES[i] as int) + if PRIORITIES[i]
                == 1 {
                "  default"@
            } else {
                seq![]
            },
    )
}

pub open spec fn add_issue_head(flow: AddIssueFlowView) -> Seq<Seq<char>> {
    let parent = match flow.parent_id {
        Some(id) => id,
        None => "none"@,
    };
    seq!["Parent: "@ + parent, seq![]]
}

pub open spec fn add_issue_body(flow: AddIssueFlowView) -> Seq<Seq<char>> {
    match flow.step {
        AddIssueStep::Title => seq![
            "Title"@,
            "> "@ + flow.title + "▏"@,
            seq![],
            "Type a title · Enter continue · e $EDITOR · Esc cancel"@,
        ],
        AddIssueStep::Description => seq![
            "Description"@,
            "> "@ + marked_breaks(flow.description) + "▏"@,
            seq![],
            "Type a description · Enter continue · e $EDITOR · Esc cancel"@,
        ],
        AddIssueStep::IssueType => seq!["Select issue type"@] + type_choices(flow.issue_type_index)
            + seq!["j/k or ↑/↓ select · Enter continue · Backspace previous · Esc cancel"@],
        AddIssueStep::Priority => seq!["Select priority (P1 is the default)"@] + priority_choices(
            flow.priority_index,
        ) + seq!["j/k or ↑/↓ select · Enter create · Backspace previous · Esc cancel"@],
    }
}

/// The lines of the add-issue modal: the parent (or `none` for a top-level
/// issue), what the flow's step asks, and the error of the last attempt, if
/// any.
pub open spec fn add_issue_lines_of(flow: AddIssueFlowView, status: Option<Seq<char>>) -> Seq<Seq<char>> {
    add_issue_head(flow) + add_issue_body(flow) + match status {
        Some(message) => seq![seq![], "Error: "@ + message],
        None => seq![],
    }
}

pub open spec fn step_number(step: AddIssueStep) -> int {
    match step {
        AddIssueStep::Title => 1,
        AddIssueStep::Description => 2,
        AddIssueStep::IssueType => 3,
        AddIssueStep::Priority => 4,
    }
}

fn mark_breaks(s: &str) -> (r: String)
    ensures
        r@ == marked_breaks(s@),
{
    let chars = chars_of(s);
    let mut out = String::new();
    let mut k: usize = 0;
    while k < chars.len()
        invariant
            chars@ == s@,
            k <= chars@.len(),
            out@ == marked_breaks(s@.take(k as int)),
        decreases chars@.len() - k,
    {
        if chars[k] == '\n' {
            push_text(&mut out, " ↵ ");
        } else {
            push_char(&mut out, chars[k]);
        }
        k = k + 1;
        proof {
            assert(s@.take(k as int).drop_last() =~= s@.take(k - 1));
        }
    }
    proof {
        assert(s@.take(chars@.len() as int) =~= s@);
    }
    out
}

/// The title and lines of the add-issue modal (see `add_issue_lines_of`).
pub fn add_issue_modal(flow: &AddIssueFlow, status: Option<&str>) -> (r: (String, Vec<String>))
    ensures
        r.0@ == " Add child issue · "@ + int_text(step_number(flow@.step)) + "/4 "@,
        string_views(r.1@) == add_issue_lines_of(
            flow@,
            match status {
                Some(m) => Some(m@),
                None => None,
            },
        ),
{
    proof {
        flow.lemma_view_fields();
    }
    let mut lines: Vec<String> = Vec::new();
    let mut parent = text_of("Parent: ");
    match &flow.parent_id {
        Some(id) => push_text(&mut parent, id.as_str()),
        None => push_text(&mut parent, "none"),
    }
    lines.push(parent);
    lines.push(String::new());
    let ghost head = string_views(lines@);
    assert(head =~= add_issue_head(flow@));
    match flow.step {
        AddIssueStep::Title => {
            lines.push(text_of("Title"));
            let mut field = text_of("> ");
            push_text(&mut field, flow.title.as_str());
            push_text(&mut field, "▏");
            lines.push(field);
            lines.push(String::new());
            lines.push(text_of("Type a title · Enter continue · e $EDITOR · Esc cancel"));
            assert(string_views(lines@) =~= head + add_issue_body(flow@));
        },
        AddIssueStep::Description => {
            lines.push(text_of("Description"));
            let mut field = text_of("> ");
            let preview = mark_breaks(flow.description.as_str());
            push_text(&mut field, preview.as_str());
            push_text(&mut field, "▏");
            lines.push(field);
            lines.push(String::new());
            lines.push(text_of("Type a description · Enter continue · e $EDITOR · Esc cancel"));
            assert(string_views(lines@) =~= head + add_issue_body(flow@));
        },
        AddIssueStep::IssueType => {
            lines.push(text_of("Select issue type"));
            let ghost before = string_views(lines@);
            let mut i: usize = 0;
            while i < 6
                invariant
                    i <= 6,
                    string_views(lines@) == before + type_choices(flow.issue_type_index).take(
                        i as int,
                    ),
                    before == head + seq!["Select issue type"@],
                decreases 6 - i,
            {
                let mut choice = if i == flow.issue_type_index {
                    text_of("›")
                } else {
                    text_of(" ")
                };
                push_text(&mut choice, " ");
                push_text(&mut choice, ISSUE_TYPES[i]);
                let ghost prior = string_views(lines@);
                lines.push(choice);
                proof {
                    assert(choice@ =~= type_choices(flow.issue_type_index)[i as int]);
                    assert(type_choices(flow.issue_type_index).take(i + 1) =~= type_choices(
                        flow.issue_type_index,
                    ).take(i as int).push(choice@));
                    assert(string_views(lines@) =~= prior.push(choice@));
                }
                i = i + 1;
            }
            proof {
                assert(type_choices(flow.issue_type_index).take(6) =~= type_choices(
                    flow.issue_type_index,
                ));
            }
            let ghost with_choices = string_views(lines@);
            let hint = text_of("j/k or ↑/↓ select · Enter continue · Backspace previous · Esc cancel");
            lines.push(hint);
            proof {
                assert(string_views(lines@) =~= with_choices.push(hint@));
                assert(flow@.step == AddIssueStep::IssueType);
                assert(add_issue_body(flow@) =~= seq!["Select issue type"@] + type_choices(
                    flow.issue_type_index,
                ) + seq![hint@]);
                assert(string_views(lines@) =~= head + add_issue_body(flow@));
            }
        },
        AddIssueStep::Priority => {
            lines.push(text_of("Select priority (P1 is the default)"));
            let ghost before = string_views(lines@);
            let mut i: usize = 0;
            while i < 5
                invariant
                    i <= 5,
                    string_views(lines@) == before + priority_choices(flow.priority_index).take(
                        i as int,
                    ),
                    before == head + seq!["Select priority (P1 is the default)"@],
                decreases 5 - i,
            {
                let mut choice = if i == flow.priority_index {
                    text_of("›")
                } else {
                    text_of(" ")
                };
                push_text(&mut choice, " P");
                push_int(&mut choice, PRIORITIES[i] as i64);
                if PRIORITIES[i] == 1 {
                    push_text(&mut choice, "  default");
                }
                let ghost prior = string_views(lines@);
                lines.push(choice);
                proof {
                    assert(choice@ =~= priority_choices(flow.priority_index)[i as int]);
                    assert(priority_choices(flow.priority_index).take(i + 1) =~= priority_choices(
                        flow.priority_index,
                    ).take(i as int).push(choice@));
                    assert(string_views(lines@) =~= prior.push(choice@));
                }
                i = i + 1;
            }
            proof {
                assert(priority_choices(flow.priority_index).take(5) =~= priority_choices(
                    flow.priority_index,
                ));
            }
            let ghost with_choices = string_views(lines@);
            let hint = text_of("j/k or ↑/↓ select · Enter create · Backspace previous · Esc cancel");
            lines.push(hint);
            proof {
                assert(string_views(lines@) =~= with_choices.push(hint@));
                assert(flow@.step == AddIssueStep::Priority);
                assert(add_issue_body(flow@) =~= seq!["Select priority (P1 is the default)"@]
                    + priority_choices(flow.priority_index) + seq![hint@]);
                assert(string_views(lines@) =~= head + add_issue_body(flow@));
            }
        },
    }
    let ghost main = string_views(lines@);
    if let Some(message) = status {
        lines.push(String::new());
        let mut error = text_of("Error: ");
        push_text(&mut error, message);
        lines.push(error);
    }
    proof {
        assert(string_views(lines@) =~= add_issue_lines_of(
            flow@,
            match status {
                Some(m) => Some(m@),
                None => None,
            },
        ));
    }
    let mut title = text_of(" Add child issue · ");
    push_int(&mut title, flow.step.number() as i64);
    push_text(&mut title, "/4 ");
    (title, lines)
}

/// The marker in front of a row's title: none while searching, `↻` where the
/// tree loops back, `▾`/`▸` on an expanded/collapsed branch.
pub open spec fn row_marker(s: AppView, row: TreeRowView) -> Seq<char> {
    if s.mode is Search {
        "  "@
    } else if row.cycle {
        "↻ "@
    } else if s.graph.children_of(row.issue_id).len() > 0 {
        if s.expanded.contains(row.path) {
            "▾ "@
        } else {
            "▸ "@
        }
    } else {
        "  "@
    }
}

/// The five cells of the table row at `position` (ID, priority, status, type,
/// and the title after the tree prefix and marker), when its issue is known.
pub open spec fn row_cells_of(s: AppView, position: int) -> Option<Seq<Seq<char>>> {
    let row = s.rows[position];
    match s.graph.issue(row.issue_id) {
        Some(issue) => Some(
            seq![
                issue.id,
                "P"@ + int_text(issue.priority as int),
                issue.status,
                short_type_of(issue.issue_type),
                row.prefix + row_marker(s, row) + issue.title,
            ],
        ),
        None => None,
    }
}

/// The cells of the table row at `position` (see `row_cells_of`).
pub fn tree_row_cells(app: &App, position: usize) -> (r: Option<Vec<String>>)
    requires
        position < app@.rows.len(),
    ensures
        match r {
            Some(cells) => row_cells_of(app@, position as int) == Some(string_views(cells@)),
            None => row_cells_of(app@, position as int) is None,
        },
{
    proof {
        app.lemma_view_fields();
    }
    let row = &app.rows[position];
    let issue = match app.graph.issue(row.issue_id.as_str()) {
        Some(issue) => issue,
        None => {
            return None;
        },
    };
    let marker = if app.search_query().is_some() {
        "  "
    } else if row.cycle {
        "↻ "
    } else if app.row_has_children(row) {
        if app.row_is_expanded(row) {
            "▾ "
        } else {
            "▸ "
        }
    } else {
        "  "
    };
    let mut name = row.prefix.clone();
    push_text(&mut name, marker);
    push_text(&mut name, issue.title.as_str());
    let mut priority = text_of("P");
    push_int(&mut priority, issue.priority as i64);
    let mut cells: Vec<String> = Vec::new();
    cells.push(issue.id.clone());
    cells.push(priority);
    cells.push(issue.status.clone());
    cells.push(short_type(issue.issue_type.as_str()));
    cells.push(name);
    proof {
        assert(marker@ == row_marker(app@, app@.rows[position as int]));
        assert(string_views(cells@) =~= row_cells_of(app@, position as int)->Some_0);
    }
    Some(cells)
}

/// The widest issue ID among the rows, in columns (2 when there are no rows).
pub open spec fn id_column_width_of(s: AppView) -> nat {
    if s.rows.len() == 0 {
        2
    } else {
        widest(s.rows.map_values(|r: TreeRowView| r.issue_id), s.rows.len())
    }
}

/// The width the ID column asks for (see `id_column_width_of`).
pub fn id_column_width(app: &App) -> (r: usize)
    ensures
        r == id_column_width_of(app@),
{
    proof {
        app.lemma_view_fields();
    }
    let ghost ids = app@.rows.map_values(|r: TreeRowView| r.issue_id);
    let n = app.rows.len();
    if n == 0 {
        return 2;
    }
    let mut widest_id: usize = 0;
    let mut k: usize = 0;
    while k < n
        invariant
            n == app.rows@.len(),
            ids == app@.rows.map_values(|r: TreeRowView| r.issue_id),
            app@.rows == crate::tree::row_views(app.rows@),
            k <= n,
            widest_id == widest(ids, k as nat),
        decreases n - k,
    {
        let w = columns(app.rows[k].issue_id.as_str());
        proof {
            assert(ids[k as int] == app.rows@[k as int].issue_id@);
        }
        if w > widest_id {
            widest_id = w;
        }
        k = k + 1;
    }
    widest_id
}

/// The line shown in place of the table when it has no rows.
pub open spec fn empty_tree_message_of(s: AppView) -> Seq<char> {
    match s.mode {
        ModeView::Search { query, .. } => "No issue IDs match /"@ + query,
        _ => "No issues found. Create one with `bd create`."@,
    }
}

/// The line shown in place of an empty table (see `empty_tree_message_of`).
pub fn empty_tree_message(app: &App) -> (r: String)
    ensures
        r@ == empty_tree_message_of(app@),
{
    match app.search_query() {
        Some(query) => {
            let mut message = text_of("No issue IDs match /");
            push_text(&mut message, query);
            message
        },
        None => text_of("No issues found. Create one with `bd create`."),
    }
}

/// The foot of the tree: while searching, the query and how many rows match;
/// otherwise how many issues are listed and the key hints.
pub open spec fn tree_footer_of(s: AppView) -> Seq<char> {
    match s.mode {
        ModeView::Search { query, .. } => "/"@ + query + "  · "@ + decimal_of(s.rows.len())
            + " match"@ + (if s.rows.len() == 1 {
            seq![]
        } else {
            "es"@
        }) + " · ↑/↓ select · Enter open · Esc cancel"@,
        _ => decimal_of(s.graph.order.len()) + " issue"@ + (if s.graph.order.len() == 1 {
            seq![]
        } else {
            "s"@
        })
            + " · + add child · / go to · j/k move · h/l fold · Enter open · e edit · x close · q quit"@,
    }
}

/// The foot of the tree (see `tree_footer_of`).
pub fn tree_footer(app: &App) -> (r: String)
    ensures
        r@ == tree_footer_of(app@),
{
    proof {
        app.lemma_view_fields();
    }
    match app.search_query() {
        Some(query) => {
            let n = app.rows.len();
            let mut footer = text_of("/");
            push_text(&mut footer, query);
            push_text(&mut footer, "  · ");
            push_decimal(&mut footer, n as u64);
            push_text(&mut footer, " match");
            if n != 1 {
                push_text(&mut footer, "es");
            }
            push_text(&mut footer, " · ↑/↓ select · Enter open · Esc cancel");
            footer
        },
        None => {
            let n = app.graph.len();
            let mut footer = String::new();
            push_decimal(&mut footer, n as u64);
            push_text(&mut footer, " issue");
            if n != 1 {
                push_text(&mut footer, "s");
            }
            push_text(
                &mut footer,
                " · + add child · / go to · j/k move · h/l fold · Enter open · e edit · x close · q quit",
            );
            footer
        },
    }
}

/// What the bottom row of the screen shows: the status message when there is
/// one, else the key hints (bold while go-to is open).
pub enum BottomLine {
    Status(String),
    Hints { text: String, bold: bool },
}

pub enum BottomLineView {
    Status(Seq<char>),
    Hints { text: Seq<char>, bold: bool },
}

impl View for BottomLine {
    type V = BottomLineView;

    open spec fn view(&self) -> BottomLineView {
        match self {
            BottomLine::Status(text) => BottomLineView::Status(text@),
            BottomLine::Hints { text, bold } => BottomLineView::Hints { text: text@, bold: *bold },
        }
    }
}

/// The bottom row of the tree `width` columns wide: the status message in
/// place of the hints when there is one.
pub open spec fn tree_bottom_line_of(s: AppView, width: nat) -> BottomLineView {
    match s.status {
        Some(message) => BottomLineView::Status(truncated(message, width)),
        None => BottomLineView::Hints {
            text: truncated(tree_footer_of(s), width),
            bold: s.mode is Search,
        },
    }
}

/// The bottom row of the tree (see `tree_bottom_line_of`).
pub fn tree_bottom_line(app: &App, width: usize) -> (r: BottomLine)
    ensures
        r@ == tree_bottom_line_of(app@, width as nat),
{
    match app.status_message() {
        Some(message) => BottomLine::Status(truncate(message, width)),
        None => {
            let footer = tree_footer(app);
            BottomLine::Hints {
                text: truncate(footer.as_str(), width),
                bold: app.search_query().is_some(),
            }
        },
    }
}

/// The bottom row of the task view `width` columns wide: the status message in
/// place of the hints when there is one.
pub open spec fn detail_bottom_line_of(s: AppView, width: nat) -> BottomLineView {
    match s.status {
        Some(message) => BottomLineView::Status(truncated(message, width)),
        None => BottomLineView::Hints {
            text: truncated(detail_footer_of(s.can_close()), width),
            bold: false,
        },
    }
}

/// The bottom row of the task view (see `detail_bottom_line_of`).
pub fn detail_bottom_line(app: &App, width: usize) -> (r: BottomLine)
    ensures
        r@ == detail_bottom_line_of(app@, width as nat),
{
    match app.status_message() {
        Some(message) => BottomLine::Status(truncate(message, width)),
        None => {
            let footer = detail_footer(app.can_close_current_issue());
            BottomLine::Hints { text: truncate(footer.as_str(), width), bold: false }
        },
    }
}

} // verus!
