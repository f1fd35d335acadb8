//! Greedy breaking of a text into lines that fit a column limit.
//!
//! The text is scanned once, left to right.  The scan remembers where the
//! current line starts and the last place where a break is allowed; when a
//! visible character would run past the limit, the line is cut at that
//! place and the whitespace after it is dropped.  A word with no break
//! opportunity inside it is never split: it overflows instead.  A newline
//! always ends a line.
use vstd::prelude::*;

use crate::text::{
    all_whitespace, chars_between, chars_of, is_whitespace, lemma_trim_end_is_prefix,
    lemma_visible_add, lemma_visible_all_whitespace, lemma_visible_single, lemma_visible_trim,
    lemma_words_add, lemma_words_all_whitespace, lemma_words_trim, no_newline, seqs_of,
    spec_is_whitespace, strings_of, trailing_whitespace_start, trim_end, visible, words, words_of_lines, lemma_words_of_lines_push,
};
use crate::width::{
    can_break_between, char_column_width, columns, lemma_columns_of_prefix,
    lemma_columns_of_suffix, spec_can_break_between,
    spec_char_column_width, spec_is_cjk, spec_is_wide,
};

verus! {

/// The state of the scan just before the character at `i`.
pub struct BreakState {
    /// The next character to look at.
    pub i: int,
    /// Where the line under construction starts.
    pub line_start: int,
    /// The last break opportunity seen on this line, if any.
    pub last_break: Option<int>,
    /// The lines finished so far.
    pub lines: Seq<Seq<char>>,
}

/// The first index from `k` on that is not a blank (whitespace other than a
/// newline).
pub open spec fn skip_blanks(chars: Seq<char>, k: int) -> int
    decreases chars.len() - k,
{
    if 0 <= k < chars.len() && spec_is_whitespace(chars[k]) && chars[k] != '\n' {
        skip_blanks(chars, k + 1)
    } else {
        k
    }
}

/// One step of the scan: look at the character at `st.i`.
pub open spec fn break_step(chars: Seq<char>, max_width: int, tab_width: int, st: BreakState) -> BreakState {
    let i = st.i;
    let ls = st.line_start;
    let c = chars[i];
    if c == '\n' {
        BreakState {
            i: i + 1,
            line_start: i + 1,
            last_break: None,
            lines: st.lines.push(trim_end(chars.subrange(ls, i))),
        }
    } else {
        let column = columns(chars.subrange(ls, i), tab_width);
        let new_column = column + spec_char_column_width(c, tab_width, column);
        let lb = if i > ls && spec_can_break_between(chars[i - 1], c) {
            Some(i)
        } else {
            st.last_break
        };
        if new_column > max_width && !spec_is_whitespace(c) && lb is Some {
            let bp = lb->0;
            BreakState {
                i: i + 1,
                line_start: skip_blanks(chars, bp),
                last_break: None,
                lines: st.lines.push(trim_end(chars.subrange(ls, bp))),
            }
        } else {
            BreakState { i: i + 1, line_start: ls, last_break: lb, lines: st.lines }
        }
    }
}

/// The scan run from `st` to the end of the text.
pub open spec fn break_run(chars: Seq<char>, max_width: int, tab_width: int, st: BreakState) -> BreakState
    decreases chars.len() - st.i,
{
    if 0 <= st.i < chars.len() {
        break_run(chars, max_width, tab_width, break_step(chars, max_width, tab_width, st))
    } else {
        st
    }
}

pub open spec fn break_start() -> BreakState {
    BreakState { i: 0, line_start: 0, last_break: None, lines: Seq::empty() }
}

/// The lines that `text` breaks into at width `max_width`.
pub open spec fn spec_break_string(text: Seq<char>, max_width: int, tab_width: int) -> Seq<Seq<char>> {
    if text.len() == 0 {
        seq![Seq::empty()]
    } else {
        let fin = break_run(text, max_width, tab_width, break_start());
        let lines = if fin.line_start < text.len() {
            fin.lines.push(trim_end(text.subrange(fin.line_start, text.len() as int)))
        } else {
            fin.lines
        };
        if lines.len() == 0 {
            seq![Seq::empty()]
        } else {
            lines
        }
    }
}

/// From `st` on, every column that the scan computes fits in a `usize`:
/// at each character other than a newline, the column reached after it on
/// the current line.  (The column recomputed after a break is that of a
/// later part of the same run, so it is never larger.)
pub open spec fn scan_fits(chars: Seq<char>, max_width: int, tab_width: int, st: BreakState) -> bool
    decreases chars.len() - st.i,
{
    if 0 <= st.i < chars.len() {
        &&& (chars[st.i] != '\n' ==> columns(chars.subrange(st.line_start, st.i + 1), tab_width)
            <= usize::MAX)
        &&& scan_fits(chars, max_width, tab_width, break_step(chars, max_width, tab_width, st))
    } else {
        true
    }
}

/// Breaking `text` never computes a column beyond `usize::MAX`.
pub open spec fn break_fits(text: Seq<char>, max_width: int, tab_width: int) -> bool {
    scan_fits(text, max_width, tab_width, break_start())
}

pub open spec fn opt_int(o: Option<usize>) -> Option<int> {
    match o {
        Some(b) => Some(b as int),
        None => None,
    }
}

pub proof fn lemma_skip_blanks(chars: Seq<char>, k: int, bound: int)
    requires
        0 <= k <= bound < chars.len(),
        !spec_is_whitespace(chars[bound]),
    ensures
        k <= skip_blanks(chars, k) <= bound,
        all_whitespace(chars.subrange(k, skip_blanks(chars, k))),
        no_newline(chars.subrange(k, skip_blanks(chars, k))),
        !(spec_is_whitespace(chars[skip_blanks(chars, k)]) && chars[skip_blanks(chars, k)]
            != '\n'),
    decreases chars.len() - k,
{
    if spec_is_whitespace(chars[k]) && chars[k] != '\n' {
        lemma_skip_blanks(chars, k + 1, bound);
        let r = skip_blanks(chars, k);
        assert forall|j: int| 0 <= j < r - k implies spec_is_whitespace(
            #[trigger] chars.subrange(k, r)[j],
        ) && chars.subrange(k, r)[j] != '\n' by {
            if j > 0 {
                assert(chars.subrange(k, r)[j] == chars.subrange(k + 1, r)[j - 1]);
            }
        }
    }
}

pub proof fn lemma_subrange_no_newline(s: Seq<char>, a: int, b: int, c: int, d: int)
    requires
        0 <= a <= c <= d <= b <= s.len(),
        no_newline(s.subrange(a, b)),
    ensures
        no_newline(s.subrange(c, d)),
{
    assert forall|j: int| 0 <= j < d - c implies #[trigger] s.subrange(c, d)[j] != '\n' by {
        assert(s.subrange(c, d)[j] == s.subrange(a, b)[j + c - a]);
    }
}

/// Break a string (as characters) into lines that fit within `max_width` columns.
pub fn break_chars(chars: &Vec<char>, max_width: usize, tab_width: usize) -> (lines: Vec<Vec<char>>)
    requires
        break_fits(chars@, max_width as int, tab_width as int),
    ensures
        seqs_of(lines@) == spec_break_string(chars@, max_width as int, tab_width as int),
{
    let n = chars.len();
    if n == 0 {
        let lines: Vec<Vec<char>> = vec![Vec::new()];
        assert(seqs_of(lines@) =~= seq![Seq::<char>::empty()]);
        return lines;
    }
    let ghost text = chars@;
    let ghost mw = max_width as int;
    let ghost tw = tab_width as int;
    let mut lines: Vec<Vec<char>> = Vec::new();
    let mut line_start: usize = 0;
    let mut column: usize = 0;
    let mut last_break: Option<usize> = None;
    let mut i: usize = 0;
    assert(seqs_of(lines@) =~= Seq::<Seq<char>>::empty());
    while i < n
        invariant
            n == text.len(),
            text == chars@,
            mw == max_width,
            tw == tab_width,
            line_start <= i <= n,
            column == columns(text.subrange(line_start as int, i as int), tw),
            last_break matches Some(b) ==> line_start < b < i,
            break_run(
                text,
                mw,
                tw,
                BreakState {
                    i: i as int,
                    line_start: line_start as int,
                    last_break: opt_int(last_break),
                    lines: seqs_of(lines@),
                },
            ) == break_run(text, mw, tw, break_start()),
            scan_fits(
                text,
                mw,
                tw,
                BreakState {
                    i: i as int,
                    line_start: line_start as int,
                    last_break: opt_int(last_break),
                    lines: seqs_of(lines@),
                },
            ),
        decreases n - i,
    {
        let ghost st = BreakState {
            i: i as int,
            line_start: line_start as int,
            last_break: opt_int(last_break),
            lines: seqs_of(lines@),
        };
        let ghost next = break_step(text, mw, tw, st);
        assert(break_run(text, mw, tw, st) == break_run(text, mw, tw, next));
        let c = chars[i];
        if c == '\n' {
            let e = trailing_whitespace_start(chars.as_slice(), line_start, i);
            let piece = chars_between(chars, line_start, e);
            lines.push(piece);
            assert(seqs_of(lines@) =~= next.lines);
            line_start = i + 1;
            column = 0;
            last_break = None;
            i = i + 1;
            assert(text.subrange(line_start as int, i as int) =~= Seq::<char>::empty());
            continue;
        }
        let ghost reach = columns(text.subrange(line_start as int, i + 1), tw);
        assert(reach <= usize::MAX);
        assert(text.subrange(line_start as int, i + 1).drop_last() =~= text.subrange(
            line_start as int,
            i as int,
        ));
        let w = char_column_width(c, tab_width, column);
        let new_column = column + w;
        if i > line_start {
            let prev = chars[i - 1];
            if can_break_between(prev, c) {
                last_break = Some(i);
            }
        }
        if new_column > max_width && !is_whitespace(c) {
            if let Some(bp) = last_break {
                let e = trailing_whitespace_start(chars.as_slice(), line_start, bp);
                let piece = chars_between(chars, line_start, e);
                lines.push(piece);
                assert(seqs_of(lines@) =~= next.lines);
                line_start = bp;
                proof {
                    lemma_skip_blanks(text, bp as int, i as int);
                }
                while line_start < n && is_whitespace(chars[line_start]) && chars[line_start]
                    != '\n'
                    invariant
                        n == text.len(),
                        text == chars@,
                        bp <= line_start <= i < n,
                        !spec_is_whitespace(text[i as int]),
                        skip_blanks(text, line_start as int) == skip_blanks(text, bp as int),
                    decreases n - line_start,
                {
                    line_start = line_start + 1;
                }
                column = 0;
                let mut j = line_start;
                proof {
                    // The new line is a later part of the run just measured.
                    let run = text.subrange(st.line_start, i + 1);
                    assert(run.subrange(line_start - st.line_start, run.len() as int)
                        =~= text.subrange(line_start as int, i + 1));
                    lemma_columns_of_suffix(run, line_start - st.line_start, tw);
                }
                while j <= i
                    invariant
                        n == text.len(),
                        text == chars@,
                        tw == tab_width,
                        line_start <= j <= i + 1,
                        i < n,
                        columns(text.subrange(line_start as int, i + 1), tw) <= usize::MAX,
                        column == columns(text.subrange(line_start as int, j as int), tw),
                    decreases i + 1 - j,
                {
                    proof {
                        let run = text.subrange(line_start as int, i + 1);
                        assert(run.subrange(0, j + 1 - line_start) =~= text.subrange(
                            line_start as int,
                            j + 1,
                        ));
                        lemma_columns_of_prefix(run, j + 1 - line_start, tw);
                        assert(text.subrange(line_start as int, j + 1).drop_last()
                            =~= text.subrange(line_start as int, j as int));
                    }
                    column = column + char_column_width(chars[j], tab_width, column);
                    j = j + 1;
                }
                last_break = None;
                i = i + 1;
                continue;
            }
        }
        column = new_column;
        i = i + 1;
    }
    if line_start < n {
        let e = trailing_whitespace_start(chars.as_slice(), line_start, n);
        let piece = chars_between(chars, line_start, e);
        lines.push(piece);
    }
    if lines.len() == 0 {
        lines.push(Vec::new());
    }
    assert(seqs_of(lines@) =~= spec_break_string(text, mw, tw));
    lines
}

/// Break a string into lines that fit within `max_width` columns.
/// Returns the broken lines (without prefixes).
pub fn break_string(text: &str, max_width: usize, tab_width: usize) -> (r: Vec<String>)
    requires
        break_fits(text@, max_width as int, tab_width as int),
    ensures
        r@.map_values(|s: String| s@) == spec_break_string(text@, max_width as int, tab_width as int),
        r@.len() >= 1,
        forall|j: int|
            0 <= j < r@.len() ==> {
                &&& no_newline(#[trigger] r@[j]@)
                &&& trim_end(r@[j]@) == r@[j]@
                &&& line_fits(r@[j]@, max_width as int, tab_width as int)
            },
        visible(r@.map_values(|s: String| s@).flatten_alt()) == visible(text@),
        no_cjk(text@) ==> words_of_lines(r@.map_values(|s: String| s@)) == words(text@),
{
    let chars = chars_of(text);
    let lines = break_chars(&chars, max_width, tab_width);
    let r = strings_of(&lines);
    proof {
        lemma_break_string_laws(text@, max_width as int, tab_width as int);
        lemma_break_string_words(text@, max_width as int, tab_width as int);
        let v = r@.map_values(|s: String| s@);
        assert forall|j: int| 0 <= j < r@.len() implies {
            &&& no_newline(#[trigger] r@[j]@)
            &&& trim_end(r@[j]@) == r@[j]@
            &&& line_fits(r@[j]@, max_width as int, tab_width as int)
        } by {
            assert(r@[j]@ == v[j]);
        }
    }
    r
}

/// On a text that fits, the scan never breaks: it stays on the first line.
proof fn lemma_run_fitting(chars: Seq<char>, max_width: int, tab_width: int, st: BreakState)
    requires
        no_newline(chars),
        columns(chars, tab_width) <= max_width,
        tab_width >= 0,
        st.line_start == 0,
        st.lines == Seq::<Seq<char>>::empty(),
        0 <= st.i <= chars.len(),
    ensures
        break_run(chars, max_width, tab_width, st).line_start == 0,
        break_run(chars, max_width, tab_width, st).lines == Seq::<Seq<char>>::empty(),
    decreases chars.len() - st.i,
{
    if st.i < chars.len() {
        let i = st.i;
        assert(chars[i] != '\n');
        assert(chars.subrange(0, i + 1).drop_last() =~= chars.subrange(0, i));
        assert(chars.subrange(0, i + 1).last() == chars[i]);
        lemma_columns_of_prefix(chars, i + 1, tab_width);
        lemma_run_fitting(chars, max_width, tab_width, break_step(chars, max_width, tab_width, st));
    }
}

/// A text without newlines that fits in `max_width` columns is not broken:
/// it comes back as one line, without its trailing whitespace.
pub proof fn lemma_break_string_fitting(text: Seq<char>, max_width: int, tab_width: int)
    requires
        no_newline(text),
        columns(text, tab_width) <= max_width,
        tab_width >= 0,
    ensures
        spec_break_string(text, max_width, tab_width) == seq![trim_end(text)],
{
    if text.len() > 0 {
        lemma_run_fitting(text, max_width, tab_width, break_start());
        assert(text.subrange(0, text.len() as int) =~= text);
        let fin = break_run(text, max_width, tab_width, break_start());
        assert(fin.lines.push(trim_end(text.subrange(fin.line_start, text.len() as int)))
            =~= seq![trim_end(text)]);
    } else {
        assert(trim_end(text) == text);
        assert(text =~= Seq::<char>::empty());
    }
}

/// A break is allowed between `s[k - 1]` and `s[k]`.
pub open spec fn break_allowed_at(s: Seq<char>, k: int) -> bool {
    0 < k < s.len() && spec_can_break_between(s[k - 1], s[k])
}

/// Somewhere inside `s` a break is allowed.
pub open spec fn has_break_opportunity(s: Seq<char>) -> bool {
    exists|k: int| #[trigger] break_allowed_at(s, k)
}

/// `line` fits in `max_width` columns, or it is a single unbreakable run.
pub open spec fn line_fits(line: Seq<char>, max_width: int, tab_width: int) -> bool {
    columns(line, tab_width) <= max_width || !has_break_opportunity(line)
}

/// What holds of the scan after every step.
pub open spec fn scan_inv(chars: Seq<char>, max_width: int, tab_width: int, st: BreakState) -> bool {
    let ls = st.line_start;
    let i = st.i;
    &&& 0 <= ls <= i <= chars.len()
    &&& (st.last_break is None ==> forall|k: int|
        ls < k < i ==> !#[trigger] break_allowed_at(chars, k))
    &&& (st.last_break matches Some(b) ==> ls < b < i && forall|k: int|
        b < k < i ==> !#[trigger] break_allowed_at(chars, k))
    &&& forall|k: int, e: int|
        ls < k < e <= i && #[trigger] break_allowed_at(chars, k) && !spec_is_whitespace(
            chars[e - 1],
        ) ==> #[trigger] columns(chars.subrange(ls, e), tab_width) <= max_width
    &&& no_newline(chars.subrange(ls, i))
    &&& forall|j: int|
        0 <= j < st.lines.len() ==> {
            &&& no_newline(#[trigger] st.lines[j])
            &&& trim_end(st.lines[j]) == st.lines[j]
            &&& line_fits(st.lines[j], max_width, tab_width)
        }
    &&& visible(st.lines.flatten_alt()) == visible(chars.subrange(0, ls))
}

/// The line `trim_end(chars[ls..e])` that the scan emits is newline-free,
/// trimmed, and fits (or cannot be broken).
proof fn lemma_emitted_line(chars: Seq<char>, max_width: int, tab_width: int, st: BreakState, e: int)
    requires
        scan_inv(chars, max_width, tab_width, st),
        st.line_start <= e <= st.i,
    ensures
        ({
            let line = trim_end(chars.subrange(st.line_start, e));
            &&& no_newline(line)
            &&& trim_end(line) == line
            &&& line_fits(line, max_width, tab_width)
            &&& visible(line) == visible(chars.subrange(st.line_start, e))
        }),
{
    let ls = st.line_start;
    let piece = chars.subrange(ls, e);
    let line = trim_end(piece);
    lemma_trim_end_is_prefix(piece);
    lemma_visible_trim(piece);
    lemma_subrange_no_newline(chars, ls, st.i, ls, e);
    let t = ls + line.len();
    assert(line =~= chars.subrange(ls, t));
    lemma_subrange_no_newline(chars, ls, st.i, ls, t);
    if line.len() > 0 {
        assert(!spec_is_whitespace(line.last()));
    }
    if has_break_opportunity(line) {
        let k = choose|k: int| #[trigger] break_allowed_at(line, k);
        assert(line[k - 1] == chars[ls + k - 1]);
        assert(line[k] == chars[ls + k]);
        assert(break_allowed_at(chars, ls + k));
        assert(chars[t - 1] == line.last());
        assert(columns(chars.subrange(ls, t), tab_width) <= max_width);
    }
}

proof fn lemma_flatten_alt_push(lines: Seq<Seq<char>>, line: Seq<char>)
    ensures
        lines.push(line).flatten_alt() == lines.flatten_alt() + line,
{
    assert(lines.push(line).drop_last() =~= lines);
}

pub proof fn lemma_step_keeps_inv(chars: Seq<char>, max_width: int, tab_width: int, st: BreakState)
    requires
        scan_inv(chars, max_width, tab_width, st),
        0 <= st.i < chars.len(),
        tab_width >= 0,
    ensures
        scan_inv(chars, max_width, tab_width, break_step(chars, max_width, tab_width, st)),
{
    let i = st.i;
    let ls = st.line_start;
    let c = chars[i];
    let next = break_step(chars, max_width, tab_width, st);
    if c == '\n' {
        lemma_emitted_line(chars, max_width, tab_width, st, i);
        let line = trim_end(chars.subrange(ls, i));
        lemma_flatten_alt_push(st.lines, line);
        lemma_visible_add(st.lines.flatten_alt(), line);
        assert(chars.subrange(0, i + 1) =~= chars.subrange(0, ls) + chars.subrange(ls, i) + seq![c]);
        lemma_visible_add(chars.subrange(0, ls), chars.subrange(ls, i));
        lemma_visible_add(chars.subrange(0, ls) + chars.subrange(ls, i), seq![c]);
        lemma_visible_single(c);
        assert(chars.subrange(i + 1, i + 1) =~= Seq::<char>::empty());
        assert forall|j: int| 0 <= j < next.lines.len() implies {
            &&& no_newline(#[trigger] next.lines[j])
            &&& trim_end(next.lines[j]) == next.lines[j]
            &&& line_fits(next.lines[j], max_width, tab_width)
        } by {
            if j < st.lines.len() {
                assert(next.lines[j] == st.lines[j]);
            }
        }
    } else {
        let column = columns(chars.subrange(ls, i), tab_width);
        let new_column = column + spec_char_column_width(c, tab_width, column);
        assert(chars.subrange(ls, i + 1).drop_last() =~= chars.subrange(ls, i));
        assert(columns(chars.subrange(ls, i + 1), tab_width) == new_column);
        let lb = if i > ls && spec_can_break_between(chars[i - 1], c) {
            Some(i)
        } else {
            st.last_break
        };
        if i > ls && spec_can_break_between(chars[i - 1], c) {
            assert(break_allowed_at(chars, i));
        } else if i > ls {
            assert(!break_allowed_at(chars, i));
        }
        if new_column > max_width && !spec_is_whitespace(c) && lb is Some {
            let bp = lb->0;
            assert(ls < bp <= i);
            lemma_emitted_line(chars, max_width, tab_width, st, bp);
            let line = trim_end(chars.subrange(ls, bp));
            lemma_flatten_alt_push(st.lines, line);
            lemma_visible_add(st.lines.flatten_alt(), line);
            lemma_skip_blanks(chars, bp, i);
            let ns = skip_blanks(chars, bp);
            assert(next.line_start == ns);
            // no break is allowed after bp up to and including i
            assert forall|k: int| bp < k <= i implies !#[trigger] break_allowed_at(chars, k) by {
                if k == i && break_allowed_at(chars, i) {
                    assert(lb == Some(i));
                }
            }
            // hence nothing in chars[ns..=i] is whitespace
            assert forall|k: int| ns <= k <= i implies !spec_is_whitespace(#[trigger] chars[k]) by {
                if k > ns && spec_is_whitespace(chars[k]) {
                    assert(break_allowed_at(chars, k));
                }
                if k == ns && k < i {
                    assert(!(spec_is_whitespace(chars[k]) && chars[k] != '\n'));
                    assert(chars.subrange(ls, i)[k - ls] == chars[k]);
                }
            }
            assert forall|k: int| ns < k < i + 1 implies !#[trigger] break_allowed_at(chars, k)
                by {}
            lemma_subrange_no_newline(chars, ls, i, ns, i);
            assert(chars.subrange(ns, i + 1) =~= chars.subrange(ns, i).push(c));
            assert forall|j: int| 0 <= j < i + 1 - ns implies #[trigger] chars.subrange(
                ns,
                i + 1,
            )[j] != '\n' by {
                if j < i - ns {
                    assert(chars.subrange(ns, i + 1)[j] == chars.subrange(ns, i)[j]);
                }
            }
            assert(chars.subrange(0, ns) =~= chars.subrange(0, ls) + chars.subrange(ls, bp)
                + chars.subrange(bp, ns));
            lemma_visible_add(chars.subrange(0, ls), chars.subrange(ls, bp));
            lemma_visible_add(chars.subrange(0, ls) + chars.subrange(ls, bp), chars.subrange(bp, ns));
            lemma_visible_all_whitespace(chars.subrange(bp, ns));
            assert forall|j: int| 0 <= j < next.lines.len() implies {
                &&& no_newline(#[trigger] next.lines[j])
                &&& trim_end(next.lines[j]) == next.lines[j]
                &&& line_fits(next.lines[j], max_width, tab_width)
            } by {
                if j < st.lines.len() {
                    assert(next.lines[j] == st.lines[j]);
                }
            }
        } else {
            assert(chars.subrange(ls, i + 1) =~= chars.subrange(ls, i).push(c));
            assert forall|j: int| 0 <= j < i + 1 - ls implies #[trigger] chars.subrange(
                ls,
                i + 1,
            )[j] != '\n' by {
                if j < i - ls {
                    assert(chars.subrange(ls, i + 1)[j] == chars.subrange(ls, i)[j]);
                }
            }
            assert forall|k: int, e: int|
                ls < k < e <= i + 1 && #[trigger] break_allowed_at(chars, k)
                    && !spec_is_whitespace(chars[e - 1]) implies #[trigger] columns(
                chars.subrange(ls, e),
                tab_width,
            ) <= max_width by {
                if e == i + 1 {
                    if new_column > max_width {
                        assert(lb is None);
                        if k < i {
                            assert(st.last_break is None);
                        }
                    }
                }
            }
        }
    }
}

proof fn lemma_run_keeps_inv(chars: Seq<char>, max_width: int, tab_width: int, st: BreakState)
    requires
        scan_inv(chars, max_width, tab_width, st),
        tab_width >= 0,
    ensures
        scan_inv(chars, max_width, tab_width, break_run(chars, max_width, tab_width, st)),
        break_run(chars, max_width, tab_width, st).i == chars.len(),
    decreases chars.len() - st.i,
{
    if st.i < chars.len() {
        lemma_step_keeps_inv(chars, max_width, tab_width, st);
        lemma_run_keeps_inv(chars, max_width, tab_width, break_step(chars, max_width, tab_width, st));
    }
}

/// Breaking a text gives at least one line; no line holds a newline or ends
/// in whitespace; every line fits in `max_width` columns unless no break is
/// allowed anywhere inside it; and the visible (non-whitespace) characters
/// of the text are kept, in order.  These hold of every text; the word law
/// is `lemma_break_string_words`.
pub proof fn lemma_break_string_laws(text: Seq<char>, max_width: int, tab_width: int)
    requires
        tab_width >= 0,
    ensures
        ({
            let lines = spec_break_string(text, max_width, tab_width);
            &&& lines.len() >= 1
            &&& forall|j: int|
                0 <= j < lines.len() ==> {
                    &&& no_newline(#[trigger] lines[j])
                    &&& trim_end(lines[j]) == lines[j]
                    &&& line_fits(lines[j], max_width, tab_width)
                }
            &&& visible(lines.flatten_alt()) == visible(text)
        }),
{
    let lines = spec_break_string(text, max_width, tab_width);
    if text.len() == 0 {
        let empty = Seq::<char>::empty();
        assert(lines == seq![empty]);
        assert(lines.flatten_alt() =~= lines.drop_last().flatten_alt() + empty);
        assert(lines.drop_last() =~= Seq::<Seq<char>>::empty());
        assert(columns(empty, tab_width) == 0);
        assert(!has_break_opportunity(empty));
        assert(trim_end(empty) == empty);
        assert(no_newline(empty));
    } else {
        let st0 = break_start();
        assert(text.subrange(0, 0) =~= Seq::<char>::empty());
        assert(st0.lines.flatten_alt() =~= Seq::<char>::empty());
        assert(scan_inv(text, max_width, tab_width, st0));
        lemma_run_keeps_inv(text, max_width, tab_width, st0);
        let fin = break_run(text, max_width, tab_width, st0);
        let n = text.len() as int;
        if fin.line_start < n {
            lemma_emitted_line(text, max_width, tab_width, fin, n);
            let line = trim_end(text.subrange(fin.line_start, n));
            lemma_flatten_alt_push(fin.lines, line);
            lemma_visible_add(fin.lines.flatten_alt(), line);
            assert(text =~= text.subrange(0, fin.line_start) + text.subrange(fin.line_start, n));
            lemma_visible_add(text.subrange(0, fin.line_start), text.subrange(fin.line_start, n));
            let pushed = fin.lines.push(line);
            assert forall|j: int| 0 <= j < pushed.len() implies {
                &&& no_newline(#[trigger] pushed[j])
                &&& trim_end(pushed[j]) == pushed[j]
                &&& line_fits(pushed[j], max_width, tab_width)
            } by {
                if j < fin.lines.len() {
                    assert(pushed[j] == fin.lines[j]);
                }
            }
        } else {
            assert(text.subrange(0, fin.line_start) =~= text);
            if fin.lines.len() == 0 {
                assert(fin.lines.flatten_alt() =~= Seq::<char>::empty());
                let empty = Seq::<char>::empty();
                assert(lines == seq![empty]);
                assert(lines.drop_last() =~= Seq::<Seq<char>>::empty());
                assert(lines.flatten_alt() =~= Seq::<char>::empty());
                assert(columns(empty, tab_width) == 0);
                assert(!has_break_opportunity(empty));
                assert(no_newline(empty));
            }
        }
    }
}

/// `s` holds no CJK character.
pub open spec fn no_cjk(s: Seq<char>) -> bool {
    forall|i: int| 0 <= i < s.len() ==> !spec_is_cjk(#[trigger] s[i])
}

/// `line` is the text of some run of `chars`, without its trailing whitespace.
pub open spec fn comes_from(chars: Seq<char>, line: Seq<char>) -> bool {
    exists|a: int, b: int|
        0 <= a <= b <= chars.len() && line == #[trigger] trim_end(chars.subrange(a, b))
}

/// What else holds of the scan after every step: every line comes from the
/// text, the last break opportunity is one, and without CJK characters each
/// line starts after whitespace and the lines hold the words of the text
/// before the current line.
pub open spec fn origin_inv(chars: Seq<char>, st: BreakState) -> bool {
    &&& forall|j: int| 0 <= j < st.lines.len() ==> comes_from(chars, #[trigger] st.lines[j])
    &&& (st.last_break matches Some(b) ==> break_allowed_at(chars, b))
    &&& no_cjk(chars) ==> {
        &&& (st.line_start == 0 || spec_is_whitespace(chars[st.line_start - 1]))
        &&& words_of_lines(st.lines) == words(chars.subrange(0, st.line_start))
    }
}

/// The words of `chars[0..e]` are those of `chars[0..ls]` and then those of
/// the line `trim_end(chars[ls..e])`, when `ls` starts after whitespace.
proof fn lemma_words_split_at_line(chars: Seq<char>, ls: int, e: int)
    requires
        0 <= ls <= e <= chars.len(),
        ls == 0 || spec_is_whitespace(chars[ls - 1]),
    ensures
        words(chars.subrange(0, e)) == words(chars.subrange(0, ls)) + words(
            trim_end(chars.subrange(ls, e)),
        ),
{
    let a = chars.subrange(0, ls);
    let b = chars.subrange(ls, e);
    assert(a + b =~= chars.subrange(0, e));
    if ls > 0 {
        assert(a.last() == chars[ls - 1]);
    }
    lemma_words_add(a, b);
    lemma_words_trim(b);
}

/// Appending whitespace adds no words.
proof fn lemma_words_append_whitespace(chars: Seq<char>, x: int, y: int)
    requires
        0 <= x <= y <= chars.len(),
        all_whitespace(chars.subrange(x, y)),
    ensures
        words(chars.subrange(0, y)) == words(chars.subrange(0, x)),
{
    let a = chars.subrange(0, x);
    let b = chars.subrange(x, y);
    assert(a + b =~= chars.subrange(0, y));
    lemma_words_all_whitespace(b);
    if b.len() > 0 {
        assert(spec_is_whitespace(b[0]));
    }
    lemma_words_add(a, b);
    assert(words(a) + words(b) =~= words(a));
}

pub proof fn lemma_step_keeps_origin(chars: Seq<char>, max_width: int, tab_width: int, st: BreakState)
    requires
        scan_inv(chars, max_width, tab_width, st),
        origin_inv(chars, st),
        0 <= st.i < chars.len(),
        tab_width >= 0,
    ensures
        origin_inv(chars, break_step(chars, max_width, tab_width, st)),
{
    let i = st.i;
    let ls = st.line_start;
    let c = chars[i];
    let next = break_step(chars, max_width, tab_width, st);
    if c == '\n' {
        let line = trim_end(chars.subrange(ls, i));
        assert(comes_from(chars, line));
        assert forall|j: int| 0 <= j < next.lines.len() implies comes_from(
            chars,
            #[trigger] next.lines[j],
        ) by {
            if j < st.lines.len() {
                assert(next.lines[j] == st.lines[j]);
            }
        }
        if no_cjk(chars) {
            lemma_words_of_lines_push(st.lines, line);
            lemma_words_split_at_line(chars, ls, i);
            assert(all_whitespace(chars.subrange(i, i + 1)));
            lemma_words_append_whitespace(chars, i, i + 1);
        }
    } else {
        let column = columns(chars.subrange(ls, i), tab_width);
        let new_column = column + spec_char_column_width(c, tab_width, column);
        let lb = if i > ls && spec_can_break_between(chars[i - 1], c) {
            Some(i)
        } else {
            st.last_break
        };
        if new_column > max_width && !spec_is_whitespace(c) && lb is Some {
            let bp = lb->0;
            assert(ls < bp <= i);
            assert(break_allowed_at(chars, bp));
            let line = trim_end(chars.subrange(ls, bp));
            assert(comes_from(chars, line));
            assert forall|j: int| 0 <= j < next.lines.len() implies comes_from(
                chars,
                #[trigger] next.lines[j],
            ) by {
                if j < st.lines.len() {
                    assert(next.lines[j] == st.lines[j]);
                }
            }
            lemma_skip_blanks(chars, bp, i);
            let ns = skip_blanks(chars, bp);
            if no_cjk(chars) {
                lemma_words_of_lines_push(st.lines, line);
                lemma_words_split_at_line(chars, ls, bp);
                lemma_words_append_whitespace(chars, bp, ns);
                if ns > bp {
                    assert(chars.subrange(bp, ns)[ns - bp - 1] == chars[ns - 1]);
                } else {
                    assert(!spec_is_cjk(chars[bp - 1]));
                    assert(!spec_is_cjk(chars[bp]));
                    if bp < i {
                        assert(chars.subrange(ls, i)[bp - ls] == chars[bp]);
                    }
                    assert(chars[bp] != '\n');
                    assert(spec_is_whitespace(chars[bp - 1]));
                }
            }
        } else {
            if i > ls && spec_can_break_between(chars[i - 1], c) {
                assert(break_allowed_at(chars, i));
            }
        }
    }
}

pub proof fn lemma_run_keeps_origin(chars: Seq<char>, max_width: int, tab_width: int, st: BreakState)
    requires
        scan_inv(chars, max_width, tab_width, st),
        origin_inv(chars, st),
        tab_width >= 0,
    ensures
        origin_inv(chars, break_run(chars, max_width, tab_width, st)),
        scan_inv(chars, max_width, tab_width, break_run(chars, max_width, tab_width, st)),
        break_run(chars, max_width, tab_width, st).i == chars.len(),
    decreases chars.len() - st.i,
{
    if st.i < chars.len() {
        lemma_step_keeps_inv(chars, max_width, tab_width, st);
        lemma_step_keeps_origin(chars, max_width, tab_width, st);
        lemma_run_keeps_origin(
            chars,
            max_width,
            tab_width,
            break_step(chars, max_width, tab_width, st),
        );
    }
}

/// Every line of a broken text is the text of a run of its characters,
/// without trailing whitespace; and for a text without CJK characters the
/// lines hold exactly the words of the text, in order: no word is lost,
/// split, merged or reordered.
pub proof fn lemma_break_string_words(text: Seq<char>, max_width: int, tab_width: int)
    requires
        tab_width >= 0,
    ensures
        ({
            let lines = spec_break_string(text, max_width, tab_width);
            &&& forall|j: int| 0 <= j < lines.len() ==> comes_from(text, #[trigger] lines[j])
            &&& no_cjk(text) ==> words_of_lines(lines) == words(text)
        }),
{
    let lines = spec_break_string(text, max_width, tab_width);
    let empty = Seq::<char>::empty();
    if text.len() == 0 {
        assert(lines == seq![empty]);
        assert(empty == trim_end(text.subrange(0, 0)));
        assert(comes_from(text, empty));
        assert(words(empty) =~= Seq::<Seq<char>>::empty());
        assert(seq![empty].map_values(|l: Seq<char>| words(l)) =~= seq![words(empty)]);
        assert(seq![words(empty)].drop_last() =~= Seq::<Seq<Seq<char>>>::empty());
        assert(seq![words(empty)].flatten_alt() =~= seq![words(empty)].drop_last().flatten_alt()
            + words(empty));
        assert(words_of_lines(lines) =~= Seq::<Seq<char>>::empty());
    } else {
        let st0 = break_start();
        assert(text.subrange(0, 0) =~= Seq::<char>::empty());
        assert(st0.lines.flatten_alt() =~= Seq::<char>::empty());
        assert(st0.lines.map_values(|l: Seq<char>| words(l)) =~= Seq::<Seq<Seq<char>>>::empty());
        assert(words(text.subrange(0, 0)) =~= Seq::<Seq<char>>::empty());
        assert(scan_inv(text, max_width, tab_width, st0));
        assert(origin_inv(text, st0));
        lemma_run_keeps_origin(text, max_width, tab_width, st0);
        let fin = break_run(text, max_width, tab_width, st0);
        let n = text.len() as int;
        if fin.line_start < n {
            let line = trim_end(text.subrange(fin.line_start, n));
            assert(comes_from(text, line));
            let pushed = fin.lines.push(line);
            assert forall|j: int| 0 <= j < pushed.len() implies comes_from(
                text,
                #[trigger] pushed[j],
            ) by {
                if j < fin.lines.len() {
                    assert(pushed[j] == fin.lines[j]);
                }
            }
            if no_cjk(text) {
                lemma_words_of_lines_push(fin.lines, line);
                lemma_words_split_at_line(text, fin.line_start, n);
                assert(text.subrange(0, n) =~= text);
            }
        } else {
            assert(text.subrange(0, fin.line_start) =~= text);
            if fin.lines.len() == 0 {
                assert(lines == seq![empty]);
                assert(empty =~= trim_end(text.subrange(0, 0)));
                assert(comes_from(text, empty));
                if no_cjk(text) {
                    assert(words_of_lines(fin.lines) =~= Seq::<Seq<char>>::empty()) by {
                        assert(fin.lines.map_values(|l: Seq<char>| words(l))
                            =~= Seq::<Seq<Seq<char>>>::empty());
                    }
                    assert(seq![empty].map_values(|l: Seq<char>| words(l)) =~= seq![words(empty)]);
                    assert(seq![words(empty)].drop_last() =~= Seq::<Seq<Seq<char>>>::empty());
                    assert(words(empty) =~= Seq::<Seq<char>>::empty());
                    assert(seq![words(empty)].flatten_alt() =~= seq![words(
                        empty,
                    )].drop_last().flatten_alt() + words(empty));
                    assert(words_of_lines(lines) =~= Seq::<Seq<char>>::empty());
                }
            }
        }
    }
}

/// `s` holds only spaces and printable ASCII characters.
pub open spec fn printable_ascii(s: Seq<char>) -> bool {
    forall|i: int| 0 <= i < s.len() ==> #[trigger] s[i] == ' ' || ('!' <= s[i] && s[i] <= '~')
}

/// Printable ASCII takes one column per character.
proof fn lemma_columns_printable(s: Seq<char>, tab_width: int)
    requires
        printable_ascii(s),
    ensures
        columns(s, tab_width) == s.len(),
    decreases s.len(),
{
    if s.len() > 0 {
        assert(printable_ascii(s.drop_last())) by {
            assert forall|i: int| 0 <= i < s.drop_last().len() implies #[trigger] s.drop_last()[i]
                == ' ' || ('!' <= s.drop_last()[i] && s.drop_last()[i] <= '~') by {
                assert(s.drop_last()[i] == s[i]);
            }
        }
        lemma_columns_printable(s.drop_last(), tab_width);
        let c = s.last();
        assert(c == s[s.len() - 1]);
        assert(0x20 <= (c as u32) <= 0x7e);
        assert(!spec_is_wide(c));
    }
}

/// For a text of spaces and printable ASCII, every line of the result is at
/// most `max_width` characters long unless it holds no space (a single word
/// longer than the width).
pub proof fn lemma_break_string_ascii_fits(text: Seq<char>, max_width: int, tab_width: int)
    requires
        tab_width >= 0,
        printable_ascii(text),
    ensures
        ({
            let lines = spec_break_string(text, max_width, tab_width);
            forall|j: int|
                0 <= j < lines.len() ==> #[trigger] lines[j].len() <= max_width || !lines[j].contains(
                    ' ',
                )
        }),
{
    let lines = spec_break_string(text, max_width, tab_width);
    lemma_break_string_laws(text, max_width, tab_width);
    lemma_break_string_words(text, max_width, tab_width);
    assert forall|j: int| 0 <= j < lines.len() implies #[trigger] lines[j].len() <= max_width
        || !lines[j].contains(' ') by {
        let l = lines[j];
        assert(comes_from(text, l));
        let (a, b) = choose|a: int, b: int|
            0 <= a <= b <= text.len() && l == #[trigger] trim_end(text.subrange(a, b));
        let piece = text.subrange(a, b);
        lemma_trim_end_is_prefix(piece);
        assert(printable_ascii(l)) by {
            assert forall|k: int| 0 <= k < l.len() implies #[trigger] l[k] == ' ' || ('!' <= l[k]
                && l[k] <= '~') by {
                assert(l[k] == piece[k]);
                assert(piece[k] == text[a + k]);
            }
        }
        lemma_columns_printable(l, tab_width);
        assert(line_fits(l, max_width, tab_width));
        if l.contains(' ') {
            let k = choose|k: int| 0 <= k < l.len() && l[k] == ' ';
            assert(spec_is_whitespace(' '));
            assert(!spec_is_whitespace(l.last()));
            if k > 0 {
                assert(break_allowed_at(l, k));
            } else {
                assert(l.len() > 1);
                assert(break_allowed_at(l, 1));
            }
        }
    }
}

} // verus!
