//! Finding the paragraph around a line: the run of neighbouring non-blank
//! lines that share its prefix.
use vstd::prelude::*;

use crate::markers::{
    all_whitespace_chars, detect_prefix_chars, marker_chars, spec_detect_prefix,
    spec_is_blank_content, CommentMarkers,
};
use crate::text::{chars_eq, chars_of_strings, seqs_of};

verus! {

/// Line `k` belongs with line `c`: it is not blank and has the same prefix.
pub open spec fn joins_paragraph(lines: Seq<Seq<char>>, markers: Seq<Seq<char>>, c: int, k: int) -> bool {
    &&& !spec_is_blank_content(lines[k], markers)
    &&& spec_detect_prefix(lines[k], markers).0 == spec_detect_prefix(lines[c], markers).0
}

/// `first..=last` is the paragraph around line `c`: every line in it belongs
/// with `c`, and the lines just outside it (if any) do not.
pub open spec fn is_paragraph(
    lines: Seq<Seq<char>>,
    markers: Seq<Seq<char>>,
    c: int,
    first: int,
    last: int,
) -> bool {
    &&& 0 <= first <= c <= last < lines.len()
    &&& forall|k: int| first <= k <= last ==> #[trigger] joins_paragraph(lines, markers, c, k)
    &&& (first == 0 || !joins_paragraph(lines, markers, c, first - 1))
    &&& (last + 1 == lines.len() || !joins_paragraph(lines, markers, c, last + 1))
}

/// What `find_paragraph` returns: the paragraph around `cursor`, or just the
/// cursor line when it is blank or past the end.
pub open spec fn paragraph_result(
    lines: Seq<Seq<char>>,
    markers: Seq<Seq<char>>,
    cursor: int,
    r: (usize, usize),
) -> bool {
    if cursor >= lines.len() || spec_is_blank_content(lines[cursor], markers) {
        r.0 == cursor && r.1 == cursor
    } else {
        is_paragraph(lines, markers, cursor, r.0 as int, r.1 as int)
    }
}

/// The paragraph around line `c` as a pair of line numbers.
pub open spec fn spec_find_paragraph(lines: Seq<Seq<char>>, markers: Seq<Seq<char>>, c: int) -> (int, int) {
    if c < 0 || c >= lines.len() || spec_is_blank_content(lines[c], markers) {
        (c, c)
    } else {
        choose|p: (int, int)| is_paragraph(lines, markers, c, p.0, p.1)
    }
}

/// A result that `find_paragraph` may give is the paragraph around the line.
pub proof fn lemma_paragraph_result_is_spec(
    lines: Seq<Seq<char>>,
    markers: Seq<Seq<char>>,
    c: int,
    r: (usize, usize),
)
    requires
        c >= 0,
        paragraph_result(lines, markers, c, r),
    ensures
        (r.0 as int, r.1 as int) == spec_find_paragraph(lines, markers, c),
{
    if !(c >= lines.len() || spec_is_blank_content(lines[c], markers)) {
        let p = (r.0 as int, r.1 as int);
        assert(is_paragraph(lines, markers, c, p.0, p.1));
        let q = choose|q: (int, int)| is_paragraph(lines, markers, c, q.0, q.1);
        lemma_paragraph_unique(lines, markers, c, p.0, p.1, q.0, q.1);
    }
}

/// Find the paragraph boundaries around `cursor_line` in lines given as characters.
pub fn find_paragraph_chars(lines: &Vec<Vec<char>>, cursor_line: usize, markers: &Vec<Vec<char>>) -> (r:
    (usize, usize))
    ensures
        paragraph_result(seqs_of(lines@), seqs_of(markers@), cursor_line as int, r),
{
    let ghost ls = seqs_of(lines@);
    let ghost ms = seqs_of(markers@);
    if cursor_line >= lines.len() {
        return (cursor_line, cursor_line);
    }
    let (cursor_prefix, cursor_content) = detect_prefix_chars(&lines[cursor_line], markers);
    assert(ls[cursor_line as int] == lines@[cursor_line as int]@);
    if all_whitespace_chars(&cursor_content) {
        return (cursor_line, cursor_line);
    }
    let c = cursor_line;
    // Scan upward.
    let mut first = cursor_line;
    while first > 0
        invariant
            ls == seqs_of(lines@),
            ms == seqs_of(markers@),
            c < ls.len(),
            cursor_prefix@ == spec_detect_prefix(ls[c as int], ms).0,
            first <= c,
            forall|k: int| first <= k <= c ==> #[trigger] joins_paragraph(ls, ms, c as int, k),
        ensures
            first <= c,
            forall|k: int| first <= k <= c ==> #[trigger] joins_paragraph(ls, ms, c as int, k),
            first == 0 || !joins_paragraph(ls, ms, c as int, first - 1),
        decreases first,
    {
        let prev = first - 1;
        let (prev_prefix, prev_content) = detect_prefix_chars(&lines[prev], markers);
        assert(ls[prev as int] == lines@[prev as int]@);
        if all_whitespace_chars(&prev_content) {
            break;
        }
        if !chars_eq(cursor_prefix.as_slice(), prev_prefix.as_slice()) {
            break;
        }
        first = prev;
    }
    // Scan downward.
    let mut last = cursor_line;
    let n = lines.len();
    while last < n - 1
        invariant
            n == lines@.len(),
            ls == seqs_of(lines@),
            ms == seqs_of(markers@),
            ls.len() == lines@.len(),
            last < lines@.len(),
            c < ls.len(),
            cursor_prefix@ == spec_detect_prefix(ls[c as int], ms).0,
            c <= last < ls.len(),
            forall|k: int| c <= k <= last ==> #[trigger] joins_paragraph(ls, ms, c as int, k),
        ensures
            c <= last < ls.len(),
            forall|k: int| c <= k <= last ==> #[trigger] joins_paragraph(ls, ms, c as int, k),
            last + 1 == ls.len() || !joins_paragraph(ls, ms, c as int, last + 1),
        decreases ls.len() - last,
    {
        let next = last + 1;
        let (next_prefix, next_content) = detect_prefix_chars(&lines[next], markers);
        assert(ls[next as int] == lines@[next as int]@);
        if all_whitespace_chars(&next_content) {
            break;
        }
        if !chars_eq(cursor_prefix.as_slice(), next_prefix.as_slice()) {
            break;
        }
        last = next;
    }
    assert forall|k: int| first <= k <= last implies #[trigger] joins_paragraph(
        ls,
        ms,
        c as int,
        k,
    ) by {}
    (first, last)
}

/// Find the paragraph boundaries around `cursor_line`.
/// Returns (first_line, last_line) inclusive.
pub fn find_paragraph(lines: &[String], cursor_line: usize, markers: &CommentMarkers) -> (r: (
    usize,
    usize,
))
    ensures
        paragraph_result(lines@.map_values(|s: String| s@), markers.texts(), cursor_line as int, r),
{
    let ls = chars_of_strings(lines);
    let ms = marker_chars(markers);
    find_paragraph_chars(&ls, cursor_line, &ms)
}

proof fn paragraph_first(lines: Seq<Seq<char>>, markers: Seq<Seq<char>>, c: int, k: int) -> (f: int)
    requires
        0 <= k <= c < lines.len(),
        forall|j: int| k <= j <= c ==> #[trigger] joins_paragraph(lines, markers, c, j),
    ensures
        0 <= f <= k,
        forall|j: int| f <= j <= c ==> #[trigger] joins_paragraph(lines, markers, c, j),
        f == 0 || !joins_paragraph(lines, markers, c, f - 1),
    decreases k,
{
    if k == 0 || !joins_paragraph(lines, markers, c, k - 1) {
        k
    } else {
        paragraph_first(lines, markers, c, k - 1)
    }
}

proof fn paragraph_last(lines: Seq<Seq<char>>, markers: Seq<Seq<char>>, c: int, k: int) -> (l: int)
    requires
        0 <= c <= k < lines.len(),
        forall|j: int| c <= j <= k ==> #[trigger] joins_paragraph(lines, markers, c, j),
    ensures
        k <= l < lines.len(),
        forall|j: int| c <= j <= l ==> #[trigger] joins_paragraph(lines, markers, c, j),
        l + 1 == lines.len() || !joins_paragraph(lines, markers, c, l + 1),
    decreases lines.len() - k,
{
    if k + 1 == lines.len() || !joins_paragraph(lines, markers, c, k + 1) {
        k
    } else {
        paragraph_last(lines, markers, c, k + 1)
    }
}

/// Every non-blank line lies in a paragraph, and `spec_find_paragraph`
/// gives it.
pub proof fn lemma_spec_find_paragraph(lines: Seq<Seq<char>>, markers: Seq<Seq<char>>, c: int)
    requires
        0 <= c,
    ensures
        ({
            let p = spec_find_paragraph(lines, markers, c);
            if c >= lines.len() || spec_is_blank_content(lines[c], markers) {
                p == (c, c)
            } else {
                is_paragraph(lines, markers, c, p.0, p.1)
            }
        }),
{
    if !(c >= lines.len() || spec_is_blank_content(lines[c], markers)) {
        assert(joins_paragraph(lines, markers, c, c));
        let f = paragraph_first(lines, markers, c, c);
        let l = paragraph_last(lines, markers, c, c);
        assert forall|j: int| f <= j <= l implies #[trigger] joins_paragraph(lines, markers, c, j) by {}
        let p = (f, l);
        assert(is_paragraph(lines, markers, c, p.0, p.1));
    }
}

/// The paragraph around a line is unique.
pub proof fn lemma_paragraph_unique(
    lines: Seq<Seq<char>>,
    markers: Seq<Seq<char>>,
    c: int,
    f1: int,
    l1: int,
    f2: int,
    l2: int,
)
    requires
        is_paragraph(lines, markers, c, f1, l1),
        is_paragraph(lines, markers, c, f2, l2),
    ensures
        f1 == f2,
        l1 == l2,
{
    if f1 < f2 {
        assert(joins_paragraph(lines, markers, c, f2 - 1));
    }
    if f2 < f1 {
        assert(joins_paragraph(lines, markers, c, f1 - 1));
    }
    if l1 < l2 {
        assert(joins_paragraph(lines, markers, c, l1 + 1));
    }
    if l2 < l1 {
        assert(joins_paragraph(lines, markers, c, l2 + 1));
    }
}

/// Every line of a paragraph finds that same paragraph: starting from any
/// of its lines gives the same first and last line.
pub proof fn lemma_paragraph_same_from_every_line(
    lines: Seq<Seq<char>>,
    markers: Seq<Seq<char>>,
    c: int,
    k: int,
    first: int,
    last: int,
    r: (usize, usize),
)
    requires
        is_paragraph(lines, markers, c, first, last),
        first <= k <= last,
        paragraph_result(lines, markers, k, r),
    ensures
        r.0 == first,
        r.1 == last,
{
    assert(joins_paragraph(lines, markers, c, k));
    assert forall|j: int| 0 <= j < lines.len() implies joins_paragraph(lines, markers, k, j)
        == joins_paragraph(lines, markers, c, j) by {}
    assert forall|j: int| first <= j <= last implies #[trigger] joins_paragraph(
        lines,
        markers,
        k,
        j,
    ) by {
        assert(joins_paragraph(lines, markers, c, j));
    }
    assert(is_paragraph(lines, markers, k, first, last));
    lemma_paragraph_unique(lines, markers, k, first, last, r.0 as int, r.1 as int);
}

} // verus!
