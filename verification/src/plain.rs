//! Plain `//` comment paragraphs (ASCII letters and single spaces): for
//! them, rewrapping the rewrapped lines gives the same lines again.
use vstd::prelude::*;

use crate::breaking::{
    break_allowed_at, break_run, break_start, break_step, lemma_run_keeps_origin,
    lemma_skip_blanks, lemma_step_keeps_inv, lemma_step_keeps_origin, no_cjk, origin_inv,
    scan_inv, skip_blanks, spec_break_string, BreakState,
};
use crate::markers::{first_matching_marker, spec_detect_prefix, spec_markers_for_extension};
use crate::text::{spec_is_whitespace, trim_end, trim_start};
use crate::width::{columns, spec_can_break_between, spec_char_column_width, spec_is_cjk};
use crate::wrap::{content_width, spec_concatenate_lines, spec_rewrap_lines};

verus! {

/// An ASCII letter.
pub open spec fn is_letter(c: char) -> bool {
    ('a' <= c && c <= 'z') || ('A' <= c && c <= 'Z')
}

/// A non-empty text of ASCII letters and single spaces that starts and
/// ends with a letter.
pub open spec fn plain_words(s: Seq<char>) -> bool {
    &&& s.len() > 0
    &&& forall|i: int| 0 <= i < s.len() ==> is_letter(#[trigger] s[i]) || s[i] == ' '
    &&& is_letter(s[0])
    &&& is_letter(s.last())
    &&& forall|i: int| 0 <= i < s.len() - 1 && #[trigger] s[i] == ' ' ==> is_letter(s[i + 1])
}

/// A line `// ` followed by plain words.
pub open spec fn plain_comment_line(l: Seq<char>) -> bool {
    &&& l.len() > 3
    &&& l.subrange(0, 3) == "// "@
    &&& plain_words(l.skip(3))
}

/// The lines joined with a single space between each two.
pub open spec fn join_spaces(ls: Seq<Seq<char>>) -> Seq<char>
    decreases ls.len(),
{
    if ls.len() == 0 {
        Seq::empty()
    } else if ls.len() == 1 {
        ls[0]
    } else {
        join_spaces(ls.drop_last()).push(' ') + ls.last()
    }
}

/// Every line followed by a space.
pub open spec fn spaced(ls: Seq<Seq<char>>) -> Seq<char>
    decreases ls.len(),
{
    if ls.len() == 0 {
        Seq::empty()
    } else {
        spaced(ls.drop_last()) + ls.last().push(' ')
    }
}

pub open spec fn all_plain(ls: Seq<Seq<char>>) -> bool {
    forall|j: int| 0 <= j < ls.len() ==> plain_words(#[trigger] ls[j])
}

proof fn lemma_letter_not_special(c: char)
    requires
        is_letter(c),
    ensures
        !spec_is_whitespace(c),
        !spec_is_cjk(c),
        c != ' ',
        c != '\n',
{
}

proof fn lemma_plain_no_cjk(s: Seq<char>)
    requires
        forall|i: int| 0 <= i < s.len() ==> is_letter(#[trigger] s[i]) || s[i] == ' ',
    ensures
        no_cjk(s),
{
    assert forall|i: int| 0 <= i < s.len() implies !spec_is_cjk(#[trigger] s[i]) by {
        if is_letter(s[i]) {
            lemma_letter_not_special(s[i]);
        }
    }
}

proof fn lemma_spaced_push(ls: Seq<Seq<char>>, x: Seq<char>)
    ensures
        spaced(ls.push(x)) == spaced(ls) + x.push(' '),
{
    assert(ls.push(x).drop_last() =~= ls);
}

proof fn lemma_spaced_then_last(ls: Seq<Seq<char>>, x: Seq<char>)
    ensures
        spaced(ls) + x == join_spaces(ls.push(x)),
    decreases ls.len(),
{
    if ls.len() == 0 {
        assert(ls.push(x) =~= seq![x]);
        assert(spaced(ls) + x =~= x);
    } else {
        let d = ls.drop_last();
        lemma_spaced_then_last(d, ls.last());
        assert(d.push(ls.last()) =~= ls);
        assert(ls.push(x).drop_last() =~= ls);
        assert(spaced(ls) + x =~= (spaced(d) + ls.last()).push(' ') + x);
    }
}

/// A run of a plain text between two letters is plain.
proof fn lemma_plain_piece(t: Seq<char>, a: int, b: int)
    requires
        plain_words(t),
        0 <= a < b <= t.len(),
        is_letter(t[a]),
        is_letter(t[b - 1]),
    ensures
        plain_words(t.subrange(a, b)),
{
    let p = t.subrange(a, b);
    assert forall|i: int| 0 <= i < p.len() implies is_letter(#[trigger] p[i]) || p[i] == ' ' by {
        assert(p[i] == t[a + i]);
    }
    assert forall|i: int| 0 <= i < p.len() - 1 && #[trigger] p[i] == ' ' implies is_letter(
        p[i + 1],
    ) by {
        assert(p[i] == t[a + i]);
        assert(p[i + 1] == t[a + i + 1]);
    }
}

/// What the scan keeps for a plain text: the current line starts at a
/// letter, the finished lines are plain, and each of them followed by one
/// space makes up the text before the current line.
pub open spec fn plain_inv(t: Seq<char>, st: BreakState) -> bool {
    &&& 0 <= st.line_start < t.len()
    &&& is_letter(t[st.line_start])
    &&& t.subrange(0, st.line_start) == spaced(st.lines)
    &&& all_plain(st.lines)
}

proof fn lemma_step_keeps_plain(t: Seq<char>, max_width: int, tab_width: int, st: BreakState)
    requires
        plain_words(t),
        scan_inv(t, max_width, tab_width, st),
        origin_inv(t, st),
        plain_inv(t, st),
        0 <= st.i < t.len(),
        tab_width >= 0,
    ensures
        plain_inv(t, break_step(t, max_width, tab_width, st)),
{
    let i = st.i;
    let ls = st.line_start;
    let c = t[i];
    let next = break_step(t, max_width, tab_width, st);
    assert(c != '\n') by {
        if is_letter(c) {
            lemma_letter_not_special(c);
        }
    }
    lemma_plain_no_cjk(t);
    let column = columns(t.subrange(ls, i), tab_width);
    let new_column = column + spec_char_column_width(c, tab_width, column);
    let lb = if i > ls && spec_can_break_between(t[i - 1], c) {
        Some(i)
    } else {
        st.last_break
    };
    if new_column > max_width && !spec_is_whitespace(c) && lb is Some {
        let bp = lb->0;
        assert(ls < bp <= i);
        assert(break_allowed_at(t, bp));
        lemma_skip_blanks(t, bp, i);
        let ns = skip_blanks(t, bp);
        assert(next.line_start == ns);
        let piece = t.subrange(ls, bp);
        assert(is_letter(t[ls]));
        lemma_letter_not_special(t[ls]);
        if t[bp - 1] == ' ' {
            // The break follows a space: the line ends before it.
            assert(bp - 1 < t.len() - 1);
            assert(is_letter(t[bp]));
            lemma_letter_not_special(t[bp]);
            assert(ns == bp);
            assert(bp - 1 > ls);
            assert(t[bp - 2] != ' ');
            assert(is_letter(t[bp - 2]));
            lemma_letter_not_special(t[bp - 2]);
            let line = t.subrange(ls, bp - 1);
            assert(piece.drop_last() =~= line);
            assert(spec_is_whitespace(' '));
            assert(trim_end(line) == line);
            assert(trim_end(piece) == line);
            lemma_plain_piece(t, ls, bp - 1);
            lemma_spaced_push(st.lines, line);
            assert(t.subrange(0, bp) =~= t.subrange(0, ls) + line.push(' '));
        } else {
            // The break comes before a space: the line ends at it.
            assert(is_letter(t[bp - 1]));
            lemma_letter_not_special(t[bp - 1]);
            assert(!spec_can_break_between(t[bp - 1], t[bp]) || spec_is_whitespace(t[bp]) || (
            spec_is_cjk(t[bp - 1]) || spec_is_cjk(t[bp])));
            if is_letter(t[bp]) {
                lemma_letter_not_special(t[bp]);
            }
            assert(t[bp] == ' ');
            assert(bp < i);
            assert(bp < t.len() - 1);
            assert(is_letter(t[bp + 1]));
            lemma_letter_not_special(t[bp + 1]);
            assert(spec_is_whitespace(' '));
            assert(skip_blanks(t, bp + 1) == bp + 1);
            assert(ns == bp + 1);
            assert(trim_end(piece) == piece);
            lemma_plain_piece(t, ls, bp);
            lemma_spaced_push(st.lines, piece);
            assert(t.subrange(0, bp + 1) =~= t.subrange(0, ls) + piece.push(' '));
        }
        assert forall|j: int| 0 <= j < next.lines.len() implies plain_words(
            #[trigger] next.lines[j],
        ) by {
            if j < st.lines.len() {
                assert(next.lines[j] == st.lines[j]);
            }
        }
    }
}

proof fn lemma_run_keeps_plain(t: Seq<char>, max_width: int, tab_width: int, st: BreakState)
    requires
        plain_words(t),
        scan_inv(t, max_width, tab_width, st),
        origin_inv(t, st),
        plain_inv(t, st),
        tab_width >= 0,
    ensures
        plain_inv(t, break_run(t, max_width, tab_width, st)),
    decreases t.len() - st.i,
{
    if st.i < t.len() {
        lemma_step_keeps_inv(t, max_width, tab_width, st);
        lemma_step_keeps_origin(t, max_width, tab_width, st);
        lemma_step_keeps_plain(t, max_width, tab_width, st);
        lemma_run_keeps_plain(t, max_width, tab_width, break_step(t, max_width, tab_width, st));
    }
}

/// Breaking plain words gives plain lines that, joined with single spaces,
/// are the text again.
pub proof fn lemma_break_plain(t: Seq<char>, max_width: int, tab_width: int)
    requires
        plain_words(t),
        tab_width >= 0,
    ensures
        all_plain(spec_break_string(t, max_width, tab_width)),
        join_spaces(spec_break_string(t, max_width, tab_width)) == t,
{
    let st0 = break_start();
    assert(t.subrange(0, 0) =~= Seq::<char>::empty());
    assert(st0.lines.flatten_alt() =~= Seq::<char>::empty());
    assert(st0.lines.map_values(|l: Seq<char>| crate::text::words(l)) =~= Seq::<
        Seq<Seq<char>>,
    >::empty());
    assert(crate::text::words(t.subrange(0, 0)) =~= Seq::<Seq<char>>::empty());
    assert(scan_inv(t, max_width, tab_width, st0));
    assert(origin_inv(t, st0));
    assert(spaced(st0.lines) =~= Seq::<char>::empty());
    assert(plain_inv(t, st0));
    lemma_run_keeps_origin(t, max_width, tab_width, st0);
    lemma_run_keeps_plain(t, max_width, tab_width, st0);
    let fin = break_run(t, max_width, tab_width, st0);
    let n = t.len() as int;
    let ls = fin.line_start;
    let last = t.subrange(ls, n);
    assert(last.last() == t.last());
    lemma_letter_not_special(t.last());
    assert(trim_end(last) == last);
    lemma_plain_piece(t, ls, n);
    let lines = fin.lines.push(last);
    assert(spec_break_string(t, max_width, tab_width) == lines);
    assert forall|j: int| 0 <= j < lines.len() implies plain_words(#[trigger] lines[j]) by {
        if j < fin.lines.len() {
            assert(lines[j] == fin.lines[j]);
        }
    }
    lemma_spaced_then_last(fin.lines, last);
    assert(t =~= t.subrange(0, ls) + last);
}

/// The end of the word that starts at `p` in `s`: the first space from `p`
/// on, or the end of `s`.
pub open spec fn word_end(s: Seq<char>, p: int) -> int
    decreases s.len() - p,
{
    if 0 <= p < s.len() && s[p] != ' ' {
        word_end(s, p + 1)
    } else {
        p
    }
}

/// The first word of a line: what comes before its first space.
pub open spec fn first_word(l: Seq<char>) -> Seq<char> {
    l.subrange(0, word_end(l, 0))
}

proof fn lemma_word_end_bounds(s: Seq<char>, p: int)
    requires
        0 <= p <= s.len(),
    ensures
        p <= word_end(s, p) <= s.len(),
    decreases s.len() - p,
{
    if p < s.len() && s[p] != ' ' {
        lemma_word_end_bounds(s, p + 1);
    }
}

/// A word runs at least as far as its run of non-spaces.
proof fn lemma_word_end_past(s: Seq<char>, p: int, q: int)
    requires
        0 <= p <= q <= s.len(),
        forall|k: int| p <= k < q ==> #[trigger] s[k] != ' ',
    ensures
        word_end(s, p) >= q,
    decreases q - p,
{
    if p < q {
        assert(s[p] != ' ');
        lemma_word_end_past(s, p + 1, q);
    } else {
        lemma_word_end_bounds(s, p);
    }
}

/// Words of a piece of a text that ends at a space (or at the end) are the
/// words of the text there.
proof fn lemma_word_end_piece(t: Seq<char>, a: int, e: int, p: int)
    requires
        0 <= a <= p <= e <= t.len(),
        e == t.len() || t[e] == ' ',
    ensures
        word_end(t, p) - a == word_end(t.subrange(a, e), p - a),
    decreases e - p,
{
    if p < e {
        assert(t.subrange(a, e)[p - a] == t[p]);
        lemma_word_end_piece(t, a, e, p + 1);
    }
}

/// Letters and spaces take one column each.
proof fn lemma_plain_columns(s: Seq<char>, tab_width: int)
    requires
        forall|i: int| 0 <= i < s.len() ==> is_letter(#[trigger] s[i]) || s[i] == ' ',
    ensures
        columns(s, tab_width) == s.len(),
    decreases s.len(),
{
    if s.len() > 0 {
        let d = s.drop_last();
        assert forall|i: int| 0 <= i < d.len() implies is_letter(#[trigger] d[i]) || d[i] == ' ' by {
            assert(d[i] == s[i]);
        }
        lemma_plain_columns(d, tab_width);
        let c = s.last();
        assert(is_letter(s[s.len() - 1]) || s[s.len() - 1] == ' ');
        assert(0x20 <= (c as u32) && (c as u32) <= 0x7a);
    }
}

proof fn lemma_spaced_add(a: Seq<Seq<char>>, b: Seq<Seq<char>>)
    ensures
        spaced(a + b) == spaced(a) + spaced(b),
    decreases b.len(),
{
    if b.len() == 0 {
        assert(a + b =~= a);
        assert(spaced(a) + spaced(b) =~= spaced(a));
    } else {
        lemma_spaced_add(a, b.drop_last());
        assert((a + b).drop_last() =~= a + b.drop_last());
        assert((a + b).last() == b.last());
        assert(spaced(a) + spaced(b) =~= spaced(a) + spaced(b.drop_last()) + b.last().push(' '));
    }
}

/// Each finished line is as long as it can be: with one space and the word
/// at which the next line starts, it would pass `max_width`.
pub open spec fn greedy_inv(t: Seq<char>, max_width: int, st: BreakState) -> bool {
    forall|j: int|
        0 <= j < st.lines.len() ==> #[trigger] st.lines[j].len() + 1 + word_end(
            t,
            spaced(st.lines.take(j + 1)).len() as int,
        ) - spaced(st.lines.take(j + 1)).len() > max_width
}

proof fn lemma_step_keeps_greedy(t: Seq<char>, max_width: int, tab_width: int, st: BreakState)
    requires
        plain_words(t),
        scan_inv(t, max_width, tab_width, st),
        origin_inv(t, st),
        plain_inv(t, st),
        greedy_inv(t, max_width, st),
        0 <= st.i < t.len(),
        tab_width >= 0,
    ensures
        greedy_inv(t, max_width, break_step(t, max_width, tab_width, st)),
{
    let i = st.i;
    let ls = st.line_start;
    let c = t[i];
    let next = break_step(t, max_width, tab_width, st);
    lemma_step_keeps_plain(t, max_width, tab_width, st);
    assert(c != '\n') by {
        if is_letter(c) {
            lemma_letter_not_special(c);
        }
    }
    let column = columns(t.subrange(ls, i), tab_width);
    let new_column = column + spec_char_column_width(c, tab_width, column);
    let lb = if i > ls && spec_can_break_between(t[i - 1], c) {
        Some(i)
    } else {
        st.last_break
    };
    if new_column > max_width && !spec_is_whitespace(c) && lb is Some {
        let bp = lb->0;
        assert(spec_is_whitespace(' '));
        // From the break to the character that overflows there is no space.
        assert forall|k: int| bp <= k <= i implies #[trigger] t[k] != ' ' by {
            if k < i {
                assert(!break_allowed_at(t, k + 1));
            }
        }
        let piece = t.subrange(ls, i);
        assert forall|k: int| 0 <= k < piece.len() implies is_letter(#[trigger] piece[k])
            || piece[k] == ' ' by {
            assert(piece[k] == t[ls + k]);
        }
        lemma_plain_columns(piece, tab_width);
        lemma_plain_columns(seq![c], tab_width);
        assert(seq![c].drop_last() =~= Seq::<char>::empty());
        lemma_word_end_past(t, bp, i + 1);
        assert(is_letter(t[bp]));
        lemma_letter_not_special(t[bp]);
        assert(next.line_start == bp);
        let line = next.lines.last();
        assert(next.lines.drop_last() =~= st.lines);
        lemma_spaced_push(st.lines, line);
        assert(next.lines.take(next.lines.len() as int) =~= next.lines);
        assert forall|j: int| 0 <= j < next.lines.len() implies #[trigger] next.lines[j].len() + 1
            + word_end(t, spaced(next.lines.take(j + 1)).len() as int) - spaced(
            next.lines.take(j + 1),
        ).len() > max_width by {
            if j < st.lines.len() {
                assert(next.lines.take(j + 1) =~= st.lines.take(j + 1));
                assert(next.lines[j] == st.lines[j]);
                assert(st.lines[j].len() + 1 + word_end(
                    t,
                    spaced(st.lines.take(j + 1)).len() as int,
                ) - spaced(st.lines.take(j + 1)).len() > max_width);
            } else {
                assert(next.lines.take(j + 1) =~= next.lines);
            }
        }
    } else {
        assert(next.lines == st.lines);
    }
}

proof fn lemma_run_keeps_greedy(t: Seq<char>, max_width: int, tab_width: int, st: BreakState)
    requires
        plain_words(t),
        scan_inv(t, max_width, tab_width, st),
        origin_inv(t, st),
        plain_inv(t, st),
        greedy_inv(t, max_width, st),
        tab_width >= 0,
    ensures
        greedy_inv(t, max_width, break_run(t, max_width, tab_width, st)),
    decreases t.len() - st.i,
{
    if st.i < t.len() {
        lemma_step_keeps_inv(t, max_width, tab_width, st);
        lemma_step_keeps_origin(t, max_width, tab_width, st);
        lemma_step_keeps_plain(t, max_width, tab_width, st);
        lemma_step_keeps_greedy(t, max_width, tab_width, st);
        lemma_run_keeps_greedy(t, max_width, tab_width, break_step(t, max_width, tab_width, st));
    }
}

/// Breaking plain words is greedy: every line but the last is as long as it
/// can be, since one more space and the first word of the next line would
/// take it past the limit.
pub proof fn lemma_break_plain_greedy(t: Seq<char>, max_width: int, tab_width: int)
    requires
        plain_words(t),
        tab_width >= 0,
    ensures
        ({
            let ls = spec_break_string(t, max_width, tab_width);
            forall|j: int|
                0 <= j < ls.len() - 1 ==> #[trigger] ls[j].len() + 1 + first_word(ls[j + 1]).len()
                    > max_width
        }),
{
    let st0 = break_start();
    assert(t.subrange(0, 0) =~= Seq::<char>::empty());
    assert(st0.lines.flatten_alt() =~= Seq::<char>::empty());
    assert(st0.lines.map_values(|l: Seq<char>| crate::text::words(l)) =~= Seq::<
        Seq<Seq<char>>,
    >::empty());
    assert(crate::text::words(t.subrange(0, 0)) =~= Seq::<Seq<char>>::empty());
    assert(scan_inv(t, max_width, tab_width, st0));
    assert(origin_inv(t, st0));
    assert(spaced(st0.lines) =~= Seq::<char>::empty());
    assert(plain_inv(t, st0));
    lemma_run_keeps_origin(t, max_width, tab_width, st0);
    lemma_run_keeps_plain(t, max_width, tab_width, st0);
    lemma_run_keeps_greedy(t, max_width, tab_width, st0);
    lemma_break_plain(t, max_width, tab_width);
    let fin = break_run(t, max_width, tab_width, st0);
    let n = t.len() as int;
    let fl = fin.lines;
    let last = t.subrange(fin.line_start, n);
    let lines = fl.push(last);
    assert(last.last() == t.last());
    lemma_letter_not_special(t.last());
    assert(trim_end(last) == last);
    assert(spec_break_string(t, max_width, tab_width) == lines);
    assert forall|j: int| 0 <= j < lines.len() - 1 implies #[trigger] lines[j].len() + 1
        + first_word(lines[j + 1]).len() > max_width by {
        let s = spaced(fl.take(j + 1)).len() as int;
        assert(lines[j] == fl[j]);
        assert(fl[j].len() + 1 + word_end(t, s) - s > max_width);
        let nx = lines[j + 1];
        // The next line is the piece of the text from `s` up to a space or the end.
        let e = s + nx.len();
        if j + 1 < fl.len() {
            lemma_spaced_add(fl.take(j + 2), fl.skip(j + 2));
            assert(fl.take(j + 2) + fl.skip(j + 2) =~= fl);
            assert(fl.take(j + 2).drop_last() =~= fl.take(j + 1));
            assert(fl.take(j + 2).last() == fl[j + 1]);
            assert(nx == fl[j + 1]);
            let pre = spaced(fl.take(j + 2));
            assert(pre == spaced(fl.take(j + 1)) + nx.push(' '));
            assert(t.subrange(0, fin.line_start) == spaced(fl));
            assert(pre.len() <= fin.line_start);
            assert forall|k: int| 0 <= k < pre.len() implies t[k] == #[trigger] pre[k] by {
                assert(spaced(fl)[k] == pre[k]);
                assert(t.subrange(0, fin.line_start)[k] == t[k]);
            }
            assert(t.subrange(s, e) =~= nx) by {
                assert forall|k: int| 0 <= k < nx.len() implies t.subrange(s, e)[k] == nx[k] by {
                    assert(pre[s + k] == nx[k]);
                }
            }
            assert(t[e] == ' ') by {
                assert(pre[e] == ' ');
            }
        } else {
            assert(fl.take(j + 1) =~= fl);
            assert(s == fin.line_start);
            assert(nx == last);
        }
        lemma_word_end_piece(t, s, e, s);
        assert(t.subrange(s, e) == nx);
        lemma_word_end_bounds(nx, 0);
    }
}

/// Plain contents joined for rewrapping are joined with single spaces, and
/// the result is plain.
proof fn lemma_concatenate_plain(cs: Seq<Seq<char>>)
    requires
        cs.len() > 0,
        all_plain(cs),
    ensures
        spec_concatenate_lines(cs) == join_spaces(cs),
        plain_words(join_spaces(cs)),
    decreases cs.len(),
{
    let last = cs.last();
    assert(plain_words(last));
    lemma_letter_not_special(last.last());
    lemma_letter_not_special(last[0]);
    assert(trim_end(last) == last);
    if cs.len() == 1 {
        assert(cs.drop_last() =~= Seq::<Seq<char>>::empty());
        assert(spec_concatenate_lines(cs.drop_last()) =~= Seq::<char>::empty());
        assert(Seq::<char>::empty() + last =~= last);
        assert(spec_concatenate_lines(cs) == last);
        assert(join_spaces(cs) == cs[0]);
    } else {
        let d = cs.drop_last();
        assert(all_plain(d)) by {
            assert forall|j: int| 0 <= j < d.len() implies plain_words(#[trigger] d[j]) by {
                assert(d[j] == cs[j]);
            }
        }
        lemma_concatenate_plain(d);
        let acc = join_spaces(d);
        lemma_letter_not_special(acc.last());
        let r = acc.push(' ') + last;
        assert(r == join_spaces(cs));
        assert(acc.len() > 0);
        assert(spec_concatenate_lines(cs) == r);
        let k = acc.len() as int;
        assert forall|i: int| 0 <= i < r.len() implies is_letter(#[trigger] r[i]) || r[i] == ' ' by {
            if i < k {
                assert(r[i] == acc[i]);
            } else if i > k {
                assert(r[i] == last[i - k - 1]);
            }
        }
        assert(r[0] == acc[0]);
        assert(r.last() == last.last());
        assert forall|i: int| 0 <= i < r.len() - 1 && #[trigger] r[i] == ' ' implies is_letter(
            r[i + 1],
        ) by {
            if i < k - 1 {
                assert(r[i] == acc[i]);
                assert(r[i + 1] == acc[i + 1]);
            } else if i == k - 1 {
                assert(r[i] == acc.last());
            } else if i == k {
                assert(r[i + 1] == last[0]);
            } else {
                assert(r[i] == last[i - k - 1]);
                assert(r[i + 1] == last[i - k]);
            }
        }
    }
}

/// The Rust comment markers.
pub open spec fn rust_markers() -> Seq<Seq<char>> {
    spec_markers_for_extension("rs"@)
}

/// A plain comment line splits into the prefix `// ` and its words.
proof fn lemma_detect_plain_line(l: Seq<char>)
    requires
        plain_comment_line(l),
    ensures
        spec_detect_prefix(l, rust_markers()) == ("// "@, l.skip(3)),
{
    reveal_strlit("// ");
    reveal_strlit("///");
    reveal_strlit("//!");
    reveal_strlit("//");
    reveal_strlit("rs");
    let ms = rust_markers();
    assert(ms == seq!["///"@, "//!"@, "//"@]);
    assert(l[0] == '/' && l[1] == '/' && l[2] == ' ') by {
        assert(l.subrange(0, 3)[0] == l[0]);
        assert(l.subrange(0, 3)[1] == l[1]);
        assert(l.subrange(0, 3)[2] == l[2]);
    }
    assert(trim_start(l) == l);
    assert(!ms[0].is_prefix_of(l)) by {
        assert(ms[0][2] == '/');
        assert(l.subrange(0, 3)[2] == ' ');
    }
    assert(!ms[1].is_prefix_of(l)) by {
        assert(ms[1][2] == '!');
        assert(l.subrange(0, 3)[2] == ' ');
    }
    assert(ms[2].is_prefix_of(l)) by {
        assert(l.subrange(0, 2) =~= ms[2]);
    }
    assert(first_matching_marker(l, ms, 2) == Some(2int));
    assert(first_matching_marker(l, ms, 1) == Some(2int));
    assert(first_matching_marker(l, ms, 0) == Some(2int));
    let after = l.skip(2);
    assert(after[0] == ' ');
    assert(l.subrange(0, 0) + ms[2] + after.take(1) =~= "// "@);
    assert(after.skip(1) =~= l.skip(3));
}

/// Rewrapping a paragraph of plain `//` comment lines, and then rewrapping
/// the result once more, gives the same lines: rewrapping is idempotent on
/// such paragraphs.
pub proof fn lemma_rewrap_idempotent(lines: Seq<Seq<char>>, max_width: int, tab_width: int)
    requires
        lines.len() > 0,
        forall|i: int| 0 <= i < lines.len() ==> plain_comment_line(#[trigger] lines[i]),
        tab_width >= 0,
    ensures
        spec_rewrap_lines(
            spec_rewrap_lines(lines, rust_markers(), max_width, tab_width),
            rust_markers(),
            max_width,
            tab_width,
        ) == spec_rewrap_lines(lines, rust_markers(), max_width, tab_width),
{
    reveal_strlit("// ");
    let ms = rust_markers();
    let p = "// "@;
    let out = spec_rewrap_lines(lines, ms, max_width, tab_width);
    // First pass.
    lemma_detect_plain_line(lines[0]);
    let cs = lines.map_values(|l: Seq<char>| spec_detect_prefix(l, ms).1);
    assert forall|j: int| 0 <= j < cs.len() implies plain_words(#[trigger] cs[j]) by {
        lemma_detect_plain_line(lines[j]);
    }
    lemma_concatenate_plain(cs);
    let joined = spec_concatenate_lines(cs);
    let cw = content_width(p, max_width, tab_width);
    let bs = spec_break_string(joined, cw, tab_width);
    lemma_break_plain(joined, cw, tab_width);
    assert(bs.len() > 0) by {
        if bs.len() == 0 {
            assert(join_spaces(bs) =~= Seq::<char>::empty());
        }
    }
    assert(out == bs.map_values(|l: Seq<char>| p + trim_start(l)));
    assert forall|j: int| 0 <= j < bs.len() implies trim_start(#[trigger] bs[j]) == bs[j] by {
        assert(plain_words(bs[j]));
        lemma_letter_not_special(bs[j][0]);
    }
    assert forall|j: int| 0 <= j < out.len() implies plain_comment_line(#[trigger] out[j]) by {
        assert(out[j] == p + trim_start(bs[j]));
        assert(out[j] =~= p + bs[j]);
        assert(out[j].subrange(0, 3) =~= p);
        assert(out[j].skip(3) =~= bs[j]);
    }
    // Second pass.
    lemma_detect_plain_line(out[0]);
    let cs2 = out.map_values(|l: Seq<char>| spec_detect_prefix(l, ms).1);
    assert(cs2 =~= bs) by {
        assert forall|j: int| 0 <= j < bs.len() implies cs2[j] == bs[j] by {
            lemma_detect_plain_line(out[j]);
            assert(out[j].skip(3) =~= bs[j]);
        }
    }
    lemma_concatenate_plain(bs);
}

} // verus!
