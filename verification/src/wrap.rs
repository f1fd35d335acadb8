//! Rewrapping a paragraph: join the contents of its lines, break the result
//! to the width left after the prefix, and put the prefix back.
use vstd::prelude::*;

use crate::breaking::{
    break_allowed_at, break_chars, break_fits, has_break_opportunity, lemma_break_string_fitting,
    lemma_break_string_laws, line_fits, no_cjk, spec_break_string,
};
use crate::markers::{detect_prefix_chars, marker_chars, spec_detect_prefix, CommentMarkers};
use crate::text::{
    chars_of, chars_of_strings, lemma_trim_end_is_prefix, lemma_trim_start_is_suffix,
    lemma_visible_add, lemma_visible_single, lemma_visible_trim, no_newline, seqs_of,
    skip_leading_whitespace, spec_is_whitespace, string_of, strings_of,
    trailing_whitespace_start, trim_end, trim_start, visible, words, words_of_lines,
    lemma_words_of_lines_push, lemma_words_add, lemma_words_trim,
};
use crate::width::{
    columns, columns_of, is_cjk, lemma_columns_from_split, lemma_columns_from_without_tabs,
    lemma_columns_from_zero, lemma_columns_of_suffix, no_tab, spec_is_cjk,
};

verus! {

/// The contents joined into one text: each content loses its trailing
/// whitespace, and a space separates it from the text so far unless one of
/// them is empty or both characters that meet there are CJK.
pub open spec fn spec_concatenate_lines(contents: Seq<Seq<char>>) -> Seq<char>
    decreases contents.len(),
{
    if contents.len() == 0 {
        Seq::empty()
    } else {
        let acc = spec_concatenate_lines(contents.drop_last());
        let t = trim_end(contents.last());
        if t.len() > 0 && acc.len() > 0 && !(spec_is_cjk(acc.last()) && spec_is_cjk(t[0])) {
            acc.push(' ') + t
        } else {
            acc + t
        }
    }
}

/// Joining one more content to the text so far: the content loses its
/// trailing whitespace; where both are non-empty, a space goes between them
/// exactly when the last character of the text so far and the first
/// character of the content are not both CJK; otherwise they are put side by
/// side.
pub proof fn lemma_concatenate_one_more(contents: Seq<Seq<char>>, next: Seq<char>)
    ensures
        ({
            let acc = spec_concatenate_lines(contents);
            let t = trim_end(next);
            let r = spec_concatenate_lines(contents.push(next));
            &&& (acc.len() > 0 && t.len() > 0 && !(spec_is_cjk(acc[acc.len() - 1]) && spec_is_cjk(t[0])))
                ==> r == acc + seq![' '] + t
            &&& (acc.len() > 0 && t.len() > 0 && spec_is_cjk(acc[acc.len() - 1]) && spec_is_cjk(t[0]))
                ==> r == acc + t
            &&& acc.len() == 0 ==> r == t
            &&& t.len() == 0 ==> r == acc
        }),
{
    assert(contents.push(next).drop_last() =~= contents);
    let acc = spec_concatenate_lines(contents);
    let t = trim_end(next);
    assert(acc.push(' ') + t =~= acc + seq![' '] + t);
    assert(acc + Seq::<char>::empty() =~= acc);
    assert(Seq::<char>::empty() + t =~= t);
}

/// Two lines are joined as their contents without trailing whitespace, with
/// a space between them unless one is empty or the last character of the
/// first and the first character of the second are both CJK.
pub proof fn lemma_concatenate_two(a: Seq<char>, b: Seq<char>)
    ensures
        ({
            let x = trim_end(a);
            let y = trim_end(b);
            let r = spec_concatenate_lines(seq![a, b]);
            if x.len() > 0 && y.len() > 0 && !(spec_is_cjk(x[x.len() - 1]) && spec_is_cjk(y[0])) {
                r == x + seq![' '] + y
            } else {
                r == x + y
            }
        }),
{
    lemma_concatenate_one_more(Seq::<Seq<char>>::empty(), a);
    assert(Seq::<Seq<char>>::empty().push(a) =~= seq![a]);
    assert(spec_concatenate_lines(Seq::<Seq<char>>::empty()) =~= Seq::<char>::empty());
    lemma_concatenate_one_more(seq![a], b);
    assert(seq![a].push(b) =~= seq![a, b]);
    assert(trim_end(a) + Seq::<char>::empty() =~= trim_end(a));
    assert(Seq::<char>::empty() + trim_end(b) =~= trim_end(b));
}

/// Concatenate stripped content lines (as characters) into a single text.
pub fn concatenate_chars(contents: &Vec<Vec<char>>) -> (r: Vec<char>)
    ensures
        r@ == spec_concatenate_lines(seqs_of(contents@)),
{
    let mut result: Vec<char> = Vec::new();
    let mut i: usize = 0;
    while i < contents.len()
        invariant
            i <= contents@.len(),
            result@ == spec_concatenate_lines(seqs_of(contents@.subrange(0, i as int))),
        decreases contents.len() - i,
    {
        let content = &contents[i];
        let e = trailing_whitespace_start(content.as_slice(), 0, content.len());
        let ghost before = result@;
        assert(content@.subrange(0, content@.len() as int) =~= content@);
        if i > 0 && e > 0 {
            if result.len() > 0 {
                let lc = result[result.len() - 1];
                let fc = content[0];
                if !(is_cjk(lc) && is_cjk(fc)) {
                    result.push(' ');
                }
            }
        }
        let mut k: usize = 0;
        let ghost mid = result@;
        while k < e
            invariant
                e <= content@.len(),
                k <= e,
                result@ == mid + content@.subrange(0, k as int),
            decreases e - k,
        {
            result.push(content[k]);
            assert(content@.subrange(0, k + 1) =~= content@.subrange(0, k as int).push(
                content@[k as int],
            ));
            k = k + 1;
        }
        proof {
            let s = seqs_of(contents@.subrange(0, i + 1));
            assert(s.drop_last() =~= seqs_of(contents@.subrange(0, i as int)));
            assert(s.last() == content@);
            if i == 0 {
                assert(seqs_of(contents@.subrange(0, 0)) =~= Seq::<Seq<char>>::empty());
            }
            assert(result@ =~= spec_concatenate_lines(s));
        }
        i = i + 1;
    }
    assert(contents@.subrange(0, i as int) =~= contents@);
    result
}

/// Concatenate stripped content lines into a single string for re-wrapping.
/// Joins with a space between lines (unless CJK adjacency).
pub fn concatenate_lines(contents: &[&str]) -> (r: String)
    ensures
        r@ == spec_concatenate_lines(contents@.map_values(|s: &str| s@)),
        visible(r@) == visible(contents@.map_values(|s: &str| s@).flatten_alt()),
        trim_end(r@) == r@,
        contents_without_cjk(contents@.map_values(|s: &str| s@)) ==> words(r@) == words_of_lines(
            contents@.map_values(|s: &str| s@),
        ),
{
    proof {
        lemma_concatenate_laws(contents@.map_values(|s: &str| s@));
        if contents_without_cjk(contents@.map_values(|s: &str| s@)) {
            lemma_concatenate_words(contents@.map_values(|s: &str| s@));
        }
    }
    let mut cs: Vec<Vec<char>> = Vec::new();
    let mut k: usize = 0;
    while k < contents.len()
        invariant
            k <= contents@.len(),
            seqs_of(cs@) =~= contents@.subrange(0, k as int).map_values(|s: &str| s@),
        decreases contents.len() - k,
    {
        cs.push(chars_of(contents[k]));
        assert(contents@.subrange(0, k + 1).map_values(|s: &str| s@) =~= contents@.subrange(
            0,
            k as int,
        ).map_values(|s: &str| s@).push(contents@[k as int]@));
        k = k + 1;
    }
    assert(contents@.subrange(0, k as int) =~= contents@);
    let joined = concatenate_chars(&cs);
    let r = string_of(joined.as_slice(), 0, joined.len());
    assert(joined@.subrange(0, joined@.len() as int) =~= joined@);
    r
}

/// The width left for content after `prefix` on a line of `max_width` columns
/// (at least one column).
pub open spec fn content_width(prefix: Seq<char>, max_width: int, tab_width: int) -> int {
    let pw = columns(prefix, tab_width);
    if max_width > pw {
        max_width - pw
    } else {
        1
    }
}

/// The paragraph `lines` rewrapped to `max_width`: the contents of all lines
/// joined, broken to the width left after the first line's prefix, and each
/// resulting line (without its leading whitespace) put after that prefix.
pub open spec fn spec_rewrap_lines(lines: Seq<Seq<char>>, markers: Seq<Seq<char>>, max_width: int, tab_width: int) -> Seq<Seq<char>> {
    if lines.len() == 0 {
        Seq::empty()
    } else {
        let prefix = spec_detect_prefix(lines[0], markers).0;
        let contents = lines.map_values(|l: Seq<char>| spec_detect_prefix(l, markers).1);
        let joined = spec_concatenate_lines(contents);
        spec_break_string(joined, content_width(prefix, max_width, tab_width), tab_width).map_values(
            |l: Seq<char>| prefix + trim_start(l),
        )
    }
}

/// Rewrapping no lines gives no lines, and a paragraph whose joined content
/// has no newline and fits in the width left after the first line's prefix
/// becomes one line: that prefix followed by the joined content.
pub proof fn lemma_rewrap_short_paragraph(
    lines: Seq<Seq<char>>,
    markers: Seq<Seq<char>>,
    max_width: int,
    tab_width: int,
)
    requires
        tab_width >= 0,
    ensures
        lines.len() == 0 ==> spec_rewrap_lines(lines, markers, max_width, tab_width) == Seq::<
            Seq<char>,
        >::empty(),
        ({
            let prefix = spec_detect_prefix(lines[0], markers).0;
            let joined = spec_concatenate_lines(
                lines.map_values(|l: Seq<char>| spec_detect_prefix(l, markers).1),
            );
            (lines.len() > 0 && no_newline(joined) && columns(joined, tab_width) <= content_width(
                prefix,
                max_width,
                tab_width,
            )) ==> spec_rewrap_lines(lines, markers, max_width, tab_width) == seq![
                prefix + trim_start(joined),
            ]
        }),
{
    if lines.len() > 0 {
        let prefix = spec_detect_prefix(lines[0], markers).0;
        let contents = lines.map_values(|l: Seq<char>| spec_detect_prefix(l, markers).1);
        let joined = spec_concatenate_lines(contents);
        let cw = content_width(prefix, max_width, tab_width);
        lemma_concatenate_laws(contents);
        if no_newline(joined) && columns(joined, tab_width) <= cw {
            lemma_break_string_fitting(joined, cw, tab_width);
            assert(seq![trim_end(joined)].map_values(|l: Seq<char>| prefix + trim_start(l))
                =~= seq![prefix + trim_start(joined)]);
        }
    }
}

/// Rewrapping `lines` never computes a column beyond `usize::MAX`: neither
/// the width of the first line's prefix nor any column of the break scan.
pub open spec fn rewrap_fits(lines: Seq<Seq<char>>, markers: Seq<Seq<char>>, max_width: int, tab_width: int) -> bool {
    lines.len() > 0 ==> {
        let prefix = spec_detect_prefix(lines[0], markers).0;
        let contents = lines.map_values(|l: Seq<char>| spec_detect_prefix(l, markers).1);
        let joined = spec_concatenate_lines(contents);
        &&& columns(prefix, tab_width) <= usize::MAX
        &&& break_fits(joined, content_width(prefix, max_width, tab_width), tab_width)
    }
}

/// Rewrap a set of lines (given as characters) to fit within `max_width`.
pub fn rewrap_chars(lines: &Vec<Vec<char>>, markers: &Vec<Vec<char>>, max_width: usize, tab_width: usize) -> (r: Vec<Vec<char>>)
    requires
        rewrap_fits(seqs_of(lines@), seqs_of(markers@), max_width as int, tab_width as int),
    ensures
        seqs_of(r@) == spec_rewrap_lines(seqs_of(lines@), seqs_of(markers@), max_width as int, tab_width as int),
{
    let ghost ls = seqs_of(lines@);
    let ghost ms = seqs_of(markers@);
    if lines.len() == 0 {
        let r: Vec<Vec<char>> = Vec::new();
        assert(seqs_of(r@) =~= Seq::<Seq<char>>::empty());
        return r;
    }
    let (prefix, _first_content) = detect_prefix_chars(&lines[0], markers);
    assert(ls[0] == lines@[0]@);
    // Strip prefixes and collect content.
    let mut contents: Vec<Vec<char>> = Vec::new();
    let mut i: usize = 0;
    while i < lines.len()
        invariant
            i <= lines@.len(),
            ls == seqs_of(lines@),
            ms == seqs_of(markers@),
            seqs_of(contents@) =~= ls.subrange(0, i as int).map_values(
                |l: Seq<char>| spec_detect_prefix(l, ms).1,
            ),
        decreases lines.len() - i,
    {
        let (_p, content) = detect_prefix_chars(&lines[i], markers);
        assert(ls[i as int] == lines@[i as int]@);
        contents.push(content);
        assert(ls.subrange(0, i + 1).map_values(|l: Seq<char>| spec_detect_prefix(l, ms).1)
            =~= ls.subrange(0, i as int).map_values(|l: Seq<char>| spec_detect_prefix(l, ms).1).push(
            spec_detect_prefix(ls[i as int], ms).1,
        ));
        i = i + 1;
    }
    let ghost cs = ls.map_values(|l: Seq<char>| spec_detect_prefix(l, ms).1);
    assert(ls.subrange(0, i as int) =~= ls);
    assert(seqs_of(contents@) == cs);
    let joined = concatenate_chars(&contents);
    assert(prefix@.subrange(0, prefix@.len() as int) =~= prefix@);
    // Calculate available width for content (after the prefix).
    let prefix_width = columns_of(prefix.as_slice(), 0, prefix.len(), tab_width);
    let content_width = if max_width > prefix_width {
        max_width - prefix_width
    } else {
        1
    };
    // Break into lines.
    let broken = break_chars(&joined, content_width, tab_width);
    let ghost bs = seqs_of(broken@);
    // Re-add prefix.
    let mut result: Vec<Vec<char>> = Vec::new();
    let mut k: usize = 0;
    while k < broken.len()
        invariant
            k <= broken@.len(),
            bs == seqs_of(broken@),
            seqs_of(result@) =~= bs.subrange(0, k as int).map_values(
                |l: Seq<char>| prefix@ + trim_start(l),
            ),
        decreases broken.len() - k,
    {
        let line = &broken[k];
        let s = skip_leading_whitespace(line.as_slice(), 0, line.len());
        let mut out = prefix.clone();
        let mut t = s;
        let ghost base = out@;
        assert(base == prefix@);
        while t < line.len()
            invariant
                s <= t <= line@.len(),
                out@ == base + line@.subrange(s as int, t as int),
            decreases line.len() - t,
        {
            out.push(line[t]);
            assert(line@.subrange(s as int, t + 1) =~= line@.subrange(s as int, t as int).push(
                line@[t as int],
            ));
            t = t + 1;
        }
        assert(line@.subrange(0, line@.len() as int) =~= line@);
        assert(bs[k as int] == line@);
        result.push(out);
        assert(bs.subrange(0, k + 1).map_values(|l: Seq<char>| prefix@ + trim_start(l))
            =~= bs.subrange(0, k as int).map_values(|l: Seq<char>| prefix@ + trim_start(l)).push(
            prefix@ + trim_start(bs[k as int]),
        ));
        k = k + 1;
    }
    assert(bs.subrange(0, k as int) =~= bs);
    result
}

/// Rewrap a set of lines (with their original prefixes) to fit within `max_width`.
pub fn rewrap_lines(lines: &[String], markers: &CommentMarkers, max_width: usize, tab_width: usize) -> (r: Vec<String>)
    requires
        rewrap_fits(
            lines@.map_values(|s: String| s@),
            markers.texts(),
            max_width as int,
            tab_width as int,
        ),
    ensures
        r@.map_values(|s: String| s@) == spec_rewrap_lines(
            lines@.map_values(|s: String| s@),
            markers.texts(),
            max_width as int,
            tab_width as int,
        ),
        (r@.len() == 0) == (lines@.len() == 0),
        lines@.len() > 0 ==> forall|j: int|
            0 <= j < r@.len() ==> spec_detect_prefix(lines@[0]@, markers.texts()).0.is_prefix_of(
                #[trigger] r@[j]@,
            ),
{
    let ls = chars_of_strings(lines);
    let ms = marker_chars(markers);
    let wrapped = rewrap_chars(&ls, &ms, max_width, tab_width);
    let r = strings_of(&wrapped);
    proof {
        let lv = lines@.map_values(|s: String| s@);
        let v = r@.map_values(|s: String| s@);
        assert(v.len() == r@.len());
        assert(lv.len() == lines@.len());
        if lines@.len() > 0 {
            lemma_rewrap_laws(lv, markers.texts(), max_width as int, tab_width as int);
            assert(lv[0] == lines@[0]@);
            assert forall|j: int| 0 <= j < r@.len() implies spec_detect_prefix(
                lines@[0]@,
                markers.texts(),
            ).0.is_prefix_of(#[trigger] r@[j]@) by {
                assert(r@[j]@ == v[j]);
            }
        }
    }
    r
}

/// Joining keeps the visible characters: those of the joined text are
/// those of the contents, in order.  The joined text has no trailing
/// whitespace, and no newline when no content has one.
pub proof fn lemma_concatenate_laws(contents: Seq<Seq<char>>)
    ensures
        visible(spec_concatenate_lines(contents)) == visible(contents.flatten_alt()),
        trim_end(spec_concatenate_lines(contents)) == spec_concatenate_lines(contents),
        (forall|i: int| 0 <= i < contents.len() ==> no_newline(#[trigger] contents[i]))
            ==> no_newline(spec_concatenate_lines(contents)),
    decreases contents.len(),
{
    let r = spec_concatenate_lines(contents);
    if contents.len() == 0 {
        assert(contents.flatten_alt() =~= Seq::<char>::empty());
        assert(visible(Seq::<char>::empty()) =~= Seq::<char>::empty());
    } else {
        let rest = contents.drop_last();
        lemma_concatenate_laws(rest);
        let acc = spec_concatenate_lines(rest);
        let last = contents.last();
        let t = trim_end(last);
        lemma_trim_end_is_prefix(last);
        lemma_visible_trim(last);
        lemma_visible_add(rest.flatten_alt(), last);
        if t.len() > 0 && acc.len() > 0 && !(spec_is_cjk(acc.last()) && spec_is_cjk(t[0])) {
            lemma_visible_add(acc, seq![' ']);
            lemma_visible_add(acc.push(' '), t);
            assert(acc + seq![' '] =~= acc.push(' '));
            lemma_visible_single(' ');
            assert(spec_is_whitespace(' '));
        } else {
            lemma_visible_add(acc, t);
        }
        // no trailing whitespace
        if t.len() > 0 {
            assert(r.last() == t.last());
        } else {
            assert(r =~= acc);
            lemma_trim_end_is_prefix(acc);
            if acc.len() > 0 && spec_is_whitespace(acc.last()) {
                lemma_trim_end_is_prefix(acc.drop_last());
            }
        }
        lemma_no_trailing_whitespace(r);
        if forall|i: int| 0 <= i < contents.len() ==> no_newline(#[trigger] contents[i]) {
            assert(no_newline(last));
            assert forall|i: int| 0 <= i < rest.len() implies no_newline(#[trigger] rest[i]) by {
                assert(rest[i] == contents[i]);
            }
            assert forall|j: int| 0 <= j < r.len() implies #[trigger] r[j] != '\n' by {
                if j < acc.len() {
                    assert(r[j] == acc[j]);
                } else if r.len() == acc.len() + 1 + t.len() && j == acc.len() {
                } else {
                    assert(r[j] == t[j - (r.len() - t.len())]);
                    assert(t[j - (r.len() - t.len())] == last[j - (r.len() - t.len())]);
                }
            }
        }
    }
}

/// No content holds a CJK character.
pub open spec fn contents_without_cjk(contents: Seq<Seq<char>>) -> bool {
    forall|i: int| 0 <= i < contents.len() ==> no_cjk(#[trigger] contents[i])
}

/// Joining contents without CJK characters keeps their words whole: the
/// words of the joined text are the words of the contents, in order.
pub proof fn lemma_concatenate_words(contents: Seq<Seq<char>>)
    requires
        contents_without_cjk(contents),
    ensures
        words(spec_concatenate_lines(contents)) == words_of_lines(contents),
    decreases contents.len(),
{
    if contents.len() == 0 {
        assert(contents.map_values(|l: Seq<char>| words(l)) =~= Seq::<Seq<Seq<char>>>::empty());
        assert(words(Seq::<char>::empty()) =~= Seq::<Seq<char>>::empty());
    } else {
        let rest = contents.drop_last();
        assert(contents_without_cjk(rest)) by {
            assert forall|i: int| 0 <= i < rest.len() implies no_cjk(#[trigger] rest[i]) by {
                assert(rest[i] == contents[i]);
            }
        }
        lemma_concatenate_words(rest);
        assert(rest.push(contents.last()) =~= contents);
        lemma_words_of_lines_push(rest, contents.last());
        let acc = spec_concatenate_lines(rest);
        let last = contents.last();
        let t = trim_end(last);
        lemma_words_trim(last);
        lemma_trim_end_is_prefix(last);
        if t.len() > 0 && acc.len() > 0 && !(spec_is_cjk(acc.last()) && spec_is_cjk(t[0])) {
            let sp = seq![' '];
            assert(spec_is_whitespace(' '));
            lemma_words_add(acc, sp);
            assert(words(sp) =~= Seq::<Seq<char>>::empty()) by {
                assert(sp.drop_last() =~= Seq::<char>::empty());
                assert(sp.last() == ' ');
                assert(words(Seq::<char>::empty()) =~= Seq::<Seq<char>>::empty());
            }
            assert(acc + sp =~= acc.push(' '));
            lemma_words_add(acc.push(' '), t);
            assert(words(acc) + words(sp) =~= words(acc));
        } else if t.len() > 0 && acc.len() > 0 {
            assert(t[0] == last[0]);
            assert(no_cjk(last));
            assert(!spec_is_cjk(t[0]));
        } else if t.len() == 0 {
            assert(acc + t =~= acc);
            assert(words(t) =~= Seq::<Seq<char>>::empty());
            assert(words(acc) + words(t) =~= words(acc));
        } else {
            assert(acc + t =~= t);
            assert(words(acc) =~= Seq::<Seq<char>>::empty());
            assert(words(acc) + words(t) =~= words(t));
        }
    }
}

/// A text that is empty or ends in a visible character is its own trim.
proof fn lemma_no_trailing_whitespace(s: Seq<char>)
    requires
        s.len() == 0 || !spec_is_whitespace(s.last()),
    ensures
        trim_end(s) == s,
{
}

proof fn lemma_visible_trim_start_each(bs: Seq<Seq<char>>)
    ensures
        visible(bs.map_values(|l: Seq<char>| trim_start(l)).flatten_alt()) == visible(
            bs.flatten_alt(),
        ),
    decreases bs.len(),
{
    let ts = bs.map_values(|l: Seq<char>| trim_start(l));
    if bs.len() == 0 {
        assert(ts.flatten_alt() =~= Seq::<char>::empty());
        assert(bs.flatten_alt() =~= Seq::<char>::empty());
    } else {
        lemma_visible_trim_start_each(bs.drop_last());
        assert(ts.drop_last() =~= bs.drop_last().map_values(|l: Seq<char>| trim_start(l)));
        lemma_visible_add(ts.drop_last().flatten_alt(), ts.last());
        lemma_visible_add(bs.drop_last().flatten_alt(), bs.last());
        lemma_visible_trim(bs.last());
    }
}

/// What a rewrapped line holds after the prefix.
pub open spec fn after_prefix(line: Seq<char>, prefix: Seq<char>) -> Seq<char> {
    line.skip(prefix.len() as int)
}

/// Rewrapping a paragraph of one or more lines gives one or more lines, each
/// beginning with the first line's prefix; it keeps the visible
/// characters: those after the prefixes are those of the original contents,
/// in order; the text after each prefix fits in the width left after the prefix
/// unless no break is allowed inside it; and no line holds a newline when
/// no input line does.
pub proof fn lemma_rewrap_laws(lines: Seq<Seq<char>>, markers: Seq<Seq<char>>, max_width: int, tab_width: int)
    requires
        lines.len() > 0,
        tab_width >= 0,
    ensures
        ({
            let out = spec_rewrap_lines(lines, markers, max_width, tab_width);
            let prefix = spec_detect_prefix(lines[0], markers).0;
            let contents = lines.map_values(|l: Seq<char>| spec_detect_prefix(l, markers).1);
            &&& out.len() >= 1
            &&& forall|j: int| 0 <= j < out.len() ==> prefix.is_prefix_of(#[trigger] out[j])
            &&& visible(out.map_values(|l: Seq<char>| after_prefix(l, prefix)).flatten_alt())
                == visible(contents.flatten_alt())
            &&& forall|j: int|
                0 <= j < out.len() ==> line_fits(
                    after_prefix(#[trigger] out[j], prefix),
                    content_width(prefix, max_width, tab_width),
                    tab_width,
                )
            &&& (forall|i: int| 0 <= i < lines.len() ==> no_newline(#[trigger] lines[i]))
                ==> forall|j: int| 0 <= j < out.len() ==> no_newline(#[trigger] out[j])
        }),
{
    let out = spec_rewrap_lines(lines, markers, max_width, tab_width);
    let prefix = spec_detect_prefix(lines[0], markers).0;
    let contents = lines.map_values(|l: Seq<char>| spec_detect_prefix(l, markers).1);
    let joined = spec_concatenate_lines(contents);
    let cw = content_width(prefix, max_width, tab_width);
    let bs = spec_break_string(joined, cw, tab_width);
    lemma_break_string_laws(joined, cw, tab_width);
    lemma_concatenate_laws(contents);
    assert(out == bs.map_values(|l: Seq<char>| prefix + trim_start(l)));
    let rest = out.map_values(|l: Seq<char>| after_prefix(l, prefix));
    assert forall|j: int| 0 <= j < out.len() implies prefix.is_prefix_of(#[trigger] out[j]) by {
        assert(out[j] == prefix + trim_start(bs[j]));
        assert(out[j].subrange(0, prefix.len() as int) =~= prefix);
    }
    assert(rest =~= bs.map_values(|l: Seq<char>| trim_start(l))) by {
        assert forall|j: int| 0 <= j < bs.len() implies rest[j] == trim_start(bs[j]) by {
            assert(out[j] == prefix + trim_start(bs[j]));
            assert(after_prefix(out[j], prefix) =~= trim_start(bs[j]));
        }
    }
    lemma_visible_trim_start_each(bs);
    assert forall|j: int| 0 <= j < out.len() implies line_fits(
        after_prefix(#[trigger] out[j], prefix),
        cw,
        tab_width,
    ) by {
        let l = bs[j];
        assert(rest[j] == trim_start(l));
        assert(line_fits(l, cw, tab_width));
        lemma_trim_start_is_suffix(l);
        let b = l.len() - trim_start(l).len();
        lemma_columns_of_suffix(l, b, tab_width);
        if has_break_opportunity(trim_start(l)) {
            let k = choose|k: int| #[trigger] break_allowed_at(trim_start(l), k);
            assert(trim_start(l)[k] == l[b + k]);
            assert(trim_start(l)[k - 1] == l[b + k - 1]);
            assert(break_allowed_at(l, b + k));
        }
    }
    if forall|i: int| 0 <= i < lines.len() ==> no_newline(#[trigger] lines[i]) {
        crate::markers::lemma_prefix_then_content(lines[0], markers);
        assert(no_newline(lines[0]));
        assert forall|i: int| 0 <= i < contents.len() implies no_newline(#[trigger] contents[i]) by {
            crate::markers::lemma_prefix_then_content(lines[i], markers);
            assert(no_newline(lines[i]));
            let p = spec_detect_prefix(lines[i], markers).0;
            assert forall|t: int| 0 <= t < contents[i].len() implies #[trigger] contents[i][t]
                != '\n' by {
                assert(contents[i][t] == lines[i][p.len() + t]);
            }
        }
        assert forall|j: int| 0 <= j < out.len() implies no_newline(#[trigger] out[j]) by {
            let l = bs[j];
            lemma_trim_start_is_suffix(l);
            assert(no_newline(l));
            assert(out[j] == prefix + trim_start(l));
            assert forall|t: int| 0 <= t < out[j].len() implies #[trigger] out[j][t] != '\n' by {
                if t < prefix.len() {
                    assert(out[j][t] == lines[0][t]);
                } else {
                    assert(out[j][t] == l[l.len() - trim_start(l).len() + t - prefix.len()]);
                }
            }
        }
    }
}

/// A rewrapped line whose text after the prefix holds no tab fits in
/// `max_width` columns when the prefix is narrower than that, unless no break
/// is allowed inside that text.
pub proof fn lemma_rewrap_line_width(
    lines: Seq<Seq<char>>,
    markers: Seq<Seq<char>>,
    max_width: int,
    tab_width: int,
    j: int,
)
    requires
        lines.len() > 0,
        tab_width >= 0,
        0 <= j < spec_rewrap_lines(lines, markers, max_width, tab_width).len(),
    ensures
        ({
            let out = spec_rewrap_lines(lines, markers, max_width, tab_width);
            let prefix = spec_detect_prefix(lines[0], markers).0;
            let rest = after_prefix(out[j], prefix);
            no_tab(rest) && columns(prefix, tab_width) < max_width && has_break_opportunity(rest)
                ==> columns(out[j], tab_width) <= max_width
        }),
{
    let out = spec_rewrap_lines(lines, markers, max_width, tab_width);
    let prefix = spec_detect_prefix(lines[0], markers).0;
    let rest = after_prefix(out[j], prefix);
    lemma_rewrap_laws(lines, markers, max_width, tab_width);
    assert(prefix.is_prefix_of(out[j]));
    assert(out[j] =~= prefix + rest);
    if no_tab(rest) && columns(prefix, tab_width) < max_width && has_break_opportunity(rest) {
        assert(line_fits(rest, content_width(prefix, max_width, tab_width), tab_width));
        lemma_columns_from_zero(out[j], tab_width);
        lemma_columns_from_zero(prefix, tab_width);
        lemma_columns_from_zero(rest, tab_width);
        lemma_columns_from_split(prefix, rest, 0, tab_width);
        lemma_columns_from_without_tabs(rest, columns(prefix, tab_width), tab_width);
    }
}

} // verus!
