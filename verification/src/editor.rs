//! The rewrap command of the editor.
//!
//! The document is held as its logical lines (without their newlines); the
//! command rewraps either the selected lines or the paragraph around the
//! cursor to the wrap column, replaces them, and moves the cursor.
use vstd::prelude::*;

use crate::lines::{
    all_no_newline, join_chars, join_newlines, lemma_join_push_empty,
    lemma_split_join, lemma_split_join_newline, lemma_split_len,
    lemma_split_selected, replace_chars, replace_text, selected_chars, selected_text, split_chars,
    split_newlines,
};
use crate::markers::{
    comment_markers_for_extension, lemma_prefix_then_content, marker_chars, spec_detect_prefix,
    spec_is_blank_content, spec_markers_for_extension,
};
use crate::paragraph::{
    find_paragraph_chars, joins_paragraph, lemma_paragraph_result_is_spec,
    lemma_spec_find_paragraph, spec_find_paragraph,
};
use crate::text::{
    all_whitespace, chars_eq, chars_of, chars_of_strings, no_newline, seqs_of, string_of,
    strings_of,
};
use crate::wrap::{lemma_rewrap_laws, rewrap_chars, rewrap_fits, spec_rewrap_lines};

verus! {

/// The column at which text is wrapped.
pub const DEFAULT_WRAP_COLUMN: usize = 80;

/// How far above and below the cursor the paragraph is looked for.
pub const PARAGRAPH_WINDOW: usize = 500;

/// A position in a document: column `x` and line `y`, both counted from 0.
#[derive(Clone, Copy, Debug, PartialEq, Eq, Structural)]
pub struct Point {
    pub x: usize,
    pub y: usize,
}

/// An open document.
pub struct Document {
    /// The file name, which decides the comment markers.
    pub filename: String,
    /// The logical lines, without their newlines.
    pub lines: Vec<String>,
    /// The width of a tab stop.
    pub tab_size: usize,
    /// The cursor.
    pub cursor: Point,
    /// The selection, if any, given by its two ends in either order (the
    /// end where it was started and the end where the cursor is).
    pub selection: Option<(Point, Point)>,
}

/// The documents of the editor: the active one, if any.
pub struct State {
    pub active: Option<Document>,
}

/// What the command tells the rest of the editor.
pub struct Context {
    /// The screen must be drawn again.
    pub needs_rerender: bool,
}

impl Context {
    pub fn needs_rerender(&mut self)
        ensures
            final(self).needs_rerender,
    {
        self.needs_rerender = true;
    }
}

impl Document {
    /// The lines as texts.
    pub open spec fn text_lines(&self) -> Seq<Seq<char>> {
        self.lines@.map_values(|s: String| s@)
    }

    /// A document has at least one line, no line holds a newline, and the
    /// cursor and the selection lie on its lines.
    pub open spec fn wf(&self) -> bool {
        &&& self.text_lines().len() >= 1
        &&& all_no_newline(self.text_lines())
        &&& self.cursor.y < self.text_lines().len()
        &&& (self.selection matches Some((b, e)) ==> b.y < self.text_lines().len() && e.y
            < self.text_lines().len())
    }
}

/// ASCII upper-case letters become lower-case; everything else is kept.
pub open spec fn ascii_lower(c: char) -> char {
    if 'A' <= c && c <= 'Z' {
        ((c as u32) + 32) as char
    } else {
        c
    }
}

/// The index of the last `.` in `s`, if any.
pub open spec fn last_dot(s: Seq<char>) -> Option<int>
    decreases s.len(),
{
    if s.len() == 0 {
        None
    } else if s.last() == '.' {
        Some(s.len() - 1)
    } else {
        last_dot(s.drop_last())
    }
}

/// The extension of a file name in lower case: what follows its last `.`,
/// or the whole name when it has none.
pub open spec fn spec_extension(filename: Seq<char>) -> Seq<char> {
    let base = match last_dot(filename) {
        Some(k) => filename.skip(k + 1),
        None => filename,
    };
    base.map_values(|c: char| ascii_lower(c))
}

proof fn lemma_last_dot_append(x: Seq<char>, y: Seq<char>)
    requires
        !y.contains('.'),
    ensures
        last_dot(x + y) == last_dot(x),
    decreases y.len(),
{
    if y.len() > 0 {
        assert((x + y).drop_last() =~= x + y.drop_last());
        assert((x + y).last() == y.last());
        assert(!y.drop_last().contains('.')) by {
            if y.drop_last().contains('.') {
                let i = choose|i: int| 0 <= i < y.drop_last().len() && y.drop_last()[i] == '.';
                assert(y[i] == '.');
            }
        }
        assert(y.last() != '.') by {
            assert(y[y.len() - 1] == y.last());
        }
        lemma_last_dot_append(x, y.drop_last());
    } else {
        assert(x + y =~= x);
    }
}

/// The extension of a file name is what follows its last dot, or the whole
/// name when it has none, with the ASCII capitals made small and every other
/// character kept.
pub proof fn lemma_extension_of_name(stem: Seq<char>, ext: Seq<char>)
    requires
        !ext.contains('.'),
    ensures
        spec_extension(stem.push('.') + ext) == spec_extension(ext),
        spec_extension(ext).len() == ext.len(),
        forall|i: int|
            0 <= i < ext.len() ==> {
                let c = ext[i];
                let d = #[trigger] spec_extension(ext)[i];
                if 'A' <= c <= 'Z' {
                    d as u32 == c as u32 + 32
                } else {
                    d == c
                }
            },
{
    lemma_last_dot_append(stem.push('.'), ext);
    lemma_last_dot_append(Seq::<char>::empty(), ext);
    assert(Seq::<char>::empty() + ext =~= ext);
    assert(last_dot(stem.push('.')) == Some(stem.len() as int));
    assert((stem.push('.') + ext).skip(stem.len() + 1int) =~= ext);
    assert forall|i: int| 0 <= i < ext.len() implies {
        let c = ext[i];
        let d = #[trigger] spec_extension(ext)[i];
        if 'A' <= c <= 'Z' {
            d as u32 == c as u32 + 32
        } else {
            d == c
        }
    } by {
        let c = ext[i];
        if 'A' <= c <= 'Z' {
            assert((c as u32 + 32) as char as u32 == c as u32 + 32);
        }
    }
}

/// `a` comes no later than `b` in the document.
pub open spec fn point_le(a: Point, b: Point) -> bool {
    a.y < b.y || (a.y == b.y && a.x <= b.x)
}

/// The ends of a selection, the earlier one first.
pub open spec fn ordered_ends(a: Point, b: Point) -> (Point, Point) {
    if point_le(a, b) {
        (a, b)
    } else {
        (b, a)
    }
}

/// The lines to rewrap, as a half-open range `(start, end)`: the selected
/// lines (a selection that ends at the start of a later line leaves that
/// line out), or else the paragraph around the cursor, looked for within
/// `PARAGRAPH_WINDOW` lines of it.
pub open spec fn rewrap_range(
    lines: Seq<Seq<char>>,
    markers: Seq<Seq<char>>,
    cursor: Point,
    selection: Option<(Point, Point)>,
) -> (int, int) {
    match selection {
        Some((a, b)) => {
            let beg = ordered_ends(a, b).0;
            let end = ordered_ends(a, b).1;
            let end_y: int = if end.x == 0 && end.y > beg.y {
                end.y - 1
            } else {
                end.y as int
            };
            (beg.y as int, end_y + 1)
        },
        None => {
            let cy = cursor.y as int;
            let ws: int = if cy >= PARAGRAPH_WINDOW {
                cy - PARAGRAPH_WINDOW
            } else {
                0
            };
            let we: int = if cy + PARAGRAPH_WINDOW + 1 < lines.len() {
                cy + PARAGRAPH_WINDOW + 1
            } else {
                lines.len() as int
            };
            let window = split_newlines(selected_text(lines, ws, we));
            let p = spec_find_paragraph(window, markers, cy - ws);
            (ws + p.0, ws + p.1 + 1)
        },
    }
}

/// The effect of the command on a document.
pub struct RewrapOutcome {
    pub lines: Seq<Seq<char>>,
    pub cursor: Point,
    pub selection: Option<(Point, Point)>,
    pub changed: bool,
}

/// The lines of the selected text, without the empty piece that a final
/// newline leaves.
pub open spec fn text_paragraph(t: Seq<char>) -> Seq<Seq<char>> {
    let parts = split_newlines(t);
    if parts.len() > 1 && parts.last().len() == 0 {
        parts.drop_last()
    } else {
        parts
    }
}

/// The rewrapped text: the rewrapped lines joined, with a final newline
/// when the original text had one.
pub open spec fn replacement_text(t: Seq<char>, r: Seq<Seq<char>>) -> Seq<char> {
    if t.len() > 0 && t.last() == '\n' {
        join_newlines(r).push('\n')
    } else {
        join_newlines(r)
    }
}

/// What the rewrap command does to a document.
pub open spec fn spec_rewrap_document(
    lines: Seq<Seq<char>>,
    filename: Seq<char>,
    tab_width: int,
    cursor: Point,
    selection: Option<(Point, Point)>,
) -> RewrapOutcome {
    let count = lines.len() as int;
    let markers = spec_markers_for_extension(spec_extension(filename));
    let range = rewrap_range(lines, markers, cursor, selection);
    let start = range.0;
    let end = range.1;
    if start >= end || start >= count {
        RewrapOutcome { lines, cursor, selection, changed: false }
    } else {
        let e = if end >= count {
            count
        } else {
            end
        };
        let t = selected_text(lines, start, e);
        let r = spec_rewrap_lines(text_paragraph(t), markers, DEFAULT_WRAP_COLUMN as int, tab_width);
        let rep = replacement_text(t, r);
        if rep == t {
            RewrapOutcome { lines, cursor, selection: None, changed: false }
        } else {
            let last = start + r.len() - 1;
            let y = if cursor.y < last {
                cursor.y as int
            } else {
                last
            };
            RewrapOutcome {
                lines: replace_text(lines, start, e, rep),
                cursor: Point { x: 0, y: y as usize },
                selection: None,
                changed: true,
            }
        }
    }
}

/// The lines of the document that the command rewraps, as a half-open
/// range clipped to the document.
pub open spec fn rewrapped_lines(
    lines: Seq<Seq<char>>,
    filename: Seq<char>,
    cursor: Point,
    selection: Option<(Point, Point)>,
) -> (int, int) {
    let markers = spec_markers_for_extension(spec_extension(filename));
    let range = rewrap_range(lines, markers, cursor, selection);
    (range.0, if range.1 >= lines.len() {
        lines.len() as int
    } else {
        range.1
    })
}

/// A selection rewraps the lines from its earlier end through its later
/// end, whichever end it was started from.  Only when the later end stands
/// at column 0 of a later line is that line left out.
pub proof fn lemma_selection_range(
    lines: Seq<Seq<char>>,
    markers: Seq<Seq<char>>,
    cursor: Point,
    a: Point,
    b: Point,
)
    requires
        a.y < b.y || (a.y == b.y && a.x <= b.x),
    ensures
        rewrap_range(lines, markers, cursor, Some((a, b))) == rewrap_range(
            lines,
            markers,
            cursor,
            Some((b, a)),
        ),
        (b.x > 0 || b.y == a.y) ==> rewrap_range(lines, markers, cursor, Some((a, b))) == (
            a.y as int,
            b.y + 1,
        ),
        (b.x == 0 && b.y > a.y) ==> rewrap_range(lines, markers, cursor, Some((a, b))) == (
            a.y as int,
            b.y as int,
        ),
{
}

/// The paragraph found in the window around the cursor, in terms of the
/// document's own lines.
proof fn lemma_cursor_paragraph(lines: Seq<Seq<char>>, markers: Seq<Seq<char>>, cursor: Point)
    requires
        all_no_newline(lines),
        cursor.y < lines.len(),
    ensures
        ({
            let (s, e) = rewrap_range(lines, markers, cursor, None);
            let cy = cursor.y as int;
            if spec_is_blank_content(lines[cy], markers) {
                s == cy && e == cy + 1
            } else {
                &&& 0 <= s <= cy < e <= lines.len()
                &&& forall|k: int| s <= k < e ==> #[trigger] joins_paragraph(lines, markers, cy, k)
                &&& s == 0 || cy - s == PARAGRAPH_WINDOW || !joins_paragraph(
                    lines,
                    markers,
                    cy,
                    s - 1,
                )
                &&& e == lines.len() || e - 1 - cy == PARAGRAPH_WINDOW || !joins_paragraph(
                    lines,
                    markers,
                    cy,
                    e,
                )
            }
        }),
{
    let count = lines.len() as int;
    let cy = cursor.y as int;
    let ws: int = if cy >= PARAGRAPH_WINDOW {
        cy - PARAGRAPH_WINDOW
    } else {
        0
    };
    let we: int = if cy + PARAGRAPH_WINDOW + 1 < count {
        cy + PARAGRAPH_WINDOW + 1
    } else {
        count
    };
    let window = split_newlines(selected_text(lines, ws, we));
    lemma_split_selected(lines, ws, we);
    let c = cy - ws;
    lemma_spec_find_paragraph(window, markers, c);
    let p = spec_find_paragraph(window, markers, c);
    assert(window[c] == lines[cy]);
    if we < count {
        // The window ends with the empty piece after its last newline.
        assert(window[we - ws] == Seq::<char>::empty());
        lemma_prefix_then_content(Seq::<char>::empty(), markers);
        assert(spec_is_blank_content(window[we - ws], markers));
    }
    if !spec_is_blank_content(lines[cy], markers) {
        assert(p.1 < we - ws) by {
            if p.1 >= we - ws {
                assert(joins_paragraph(window, markers, c, we - ws));
            }
        }
        assert forall|k: int| ws + p.0 <= k < ws + p.1 + 1 implies #[trigger] joins_paragraph(
            lines,
            markers,
            cy,
            k,
        ) by {
            assert(joins_paragraph(window, markers, c, k - ws));
            assert(window[k - ws] == lines[k]);
        }
        if p.0 > 0 {
            assert(window[p.0 - 1] == lines[ws + p.0 - 1]);
        }
        if p.1 + 1 < we - ws {
            assert(window[p.1 + 1] == lines[ws + p.1 + 1]);
        }
    }
}

/// Without a selection the command rewraps the paragraph around the cursor
/// line.  A blank cursor line (one whose content after the prefix is only
/// whitespace) is taken alone.  Otherwise every line of the range is not
/// blank and has the cursor line's prefix, and the range reaches up to the
/// first line, to 500 lines above the cursor (`PARAGRAPH_WINDOW`), or to a
/// line that is blank or has another prefix; and down to the end of the
/// document, to 500 lines below the cursor, or to a line that is blank or
/// has another prefix.
pub proof fn lemma_paragraph_range(lines: Seq<Seq<char>>, markers: Seq<Seq<char>>, cursor: Point)
    requires
        all_no_newline(lines),
        cursor.y < lines.len(),
    ensures
        all_whitespace(spec_detect_prefix(lines[cursor.y as int], markers).1) ==> rewrap_range(
            lines,
            markers,
            cursor,
            None,
        ) == (cursor.y as int, cursor.y + 1),
        !all_whitespace(spec_detect_prefix(lines[cursor.y as int], markers).1) ==> ({
            let r = rewrap_range(lines, markers, cursor, None);
            0 <= r.0 <= cursor.y < r.1 <= lines.len()
        }),
        !all_whitespace(spec_detect_prefix(lines[cursor.y as int], markers).1) ==> ({
            let r = rewrap_range(lines, markers, cursor, None);
            forall|k: int|
                r.0 <= k < r.1 ==> !all_whitespace(#[trigger] spec_detect_prefix(lines[k], markers).1)
                    && spec_detect_prefix(lines[k], markers).0 == spec_detect_prefix(
                    lines[cursor.y as int],
                    markers,
                ).0
        }),
        !all_whitespace(spec_detect_prefix(lines[cursor.y as int], markers).1) ==> ({
            let r = rewrap_range(lines, markers, cursor, None);
            r.0 == 0 || cursor.y - r.0 == 500 || all_whitespace(
                spec_detect_prefix(lines[r.0 - 1], markers).1,
            ) || spec_detect_prefix(lines[r.0 - 1], markers).0 != spec_detect_prefix(
                lines[cursor.y as int],
                markers,
            ).0
        }),
        !all_whitespace(spec_detect_prefix(lines[cursor.y as int], markers).1) ==> ({
            let r = rewrap_range(lines, markers, cursor, None);
            r.1 == lines.len() || r.1 - 1 - cursor.y == 500 || all_whitespace(
                spec_detect_prefix(lines[r.1], markers).1,
            ) || spec_detect_prefix(lines[r.1], markers).0 != spec_detect_prefix(
                lines[cursor.y as int],
                markers,
            ).0
        }),
{
    lemma_cursor_paragraph(lines, markers, cursor);
    let cy = cursor.y as int;
    let r = rewrap_range(lines, markers, cursor, None);
    if !spec_is_blank_content(lines[cy], markers) {
        let cursor_prefix = spec_detect_prefix(lines[cy], markers).0;
        assert forall|k: int| r.0 <= k < r.1 implies !all_whitespace(
            #[trigger] spec_detect_prefix(lines[k], markers).1,
        ) && spec_detect_prefix(lines[k], markers).0 == cursor_prefix by {
            assert(joins_paragraph(lines, markers, cy, k));
        }
        if r.0 > 0 && cy - r.0 != PARAGRAPH_WINDOW {
            assert(!joins_paragraph(lines, markers, cy, r.0 - 1));
        }
        if r.1 < lines.len() && r.1 - 1 - cy != PARAGRAPH_WINDOW {
            assert(!joins_paragraph(lines, markers, cy, r.1));
        }
        assert(0 <= r.0 <= cy < r.1 <= lines.len());
        assert(r.0 == 0 || cy - r.0 == PARAGRAPH_WINDOW || all_whitespace(
            spec_detect_prefix(lines[r.0 - 1], markers).1,
        ) || spec_detect_prefix(lines[r.0 - 1], markers).0 != cursor_prefix);
        assert(r.1 == lines.len() || r.1 - 1 - cy == PARAGRAPH_WINDOW || all_whitespace(
            spec_detect_prefix(lines[r.1], markers).1,
        ) || spec_detect_prefix(lines[r.1], markers).0 != cursor_prefix);
    } else {
        assert(r.0 == cy && r.1 == cy + 1);
    }
}

/// The rewrap command keeps a document well formed: it still has a line,
/// no line holds a newline, and the cursor and the selection lie on its
/// lines.  When it reports no change the lines are the same; when it
/// changes them, the selection is gone, the lines before the rewrapped ones
/// are kept, and so are the lines after them (when the rewrapped lines did
/// not run to the end of the document).
pub proof fn lemma_rewrap_document_laws(
    lines: Seq<Seq<char>>,
    filename: Seq<char>,
    tab_width: int,
    cursor: Point,
    selection: Option<(Point, Point)>,
)
    requires
        lines.len() >= 1,
        all_no_newline(lines),
        cursor.y < lines.len(),
        selection matches Some((b, e)) ==> b.y < lines.len() && e.y < lines.len(),
        tab_width >= 0,
    ensures
        ({
            let o = spec_rewrap_document(lines, filename, tab_width, cursor, selection);
            let (s, e) = rewrapped_lines(lines, filename, cursor, selection);
            &&& o.lines.len() >= 1
            &&& all_no_newline(o.lines)
            &&& o.cursor.y < o.lines.len()
            &&& (o.selection matches Some((b, e)) ==> b.y < o.lines.len() && e.y < o.lines.len())
            &&& !o.changed ==> o.lines == lines
            &&& o.changed ==> {
                &&& o.selection is None
                &&& 0 <= s < e <= lines.len()
                &&& o.lines.subrange(0, s) == lines.subrange(0, s)
                &&& e < lines.len() ==> o.lines.subrange(
                    o.lines.len() - (lines.len() - e),
                    o.lines.len() as int,
                ) == lines.subrange(e, lines.len() as int)
            }
        }),
{
    let o = spec_rewrap_document(lines, filename, tab_width, cursor, selection);
    let markers = spec_markers_for_extension(spec_extension(filename));
    let range = rewrap_range(lines, markers, cursor, selection);
    let count = lines.len() as int;
    let start = range.0;
    if selection is None {
        let cy = cursor.y as int;
        let ws: int = if cy >= PARAGRAPH_WINDOW {
            cy - PARAGRAPH_WINDOW
        } else {
            0
        };
        let we: int = if cy + PARAGRAPH_WINDOW + 1 < count {
            cy + PARAGRAPH_WINDOW + 1
        } else {
            count
        };
        let window = split_newlines(selected_text(lines, ws, we));
        lemma_spec_find_paragraph(window, markers, cy - ws);
    }
    assert(start >= 0);
    if !(start >= range.1 || start >= count) {
        let e = if range.1 >= count {
            count
        } else {
            range.1
        };
        lemma_rewrite_keeps_lines(lines, markers, start, e, tab_width);
    }
}

/// What the command does to a well-formed document.  The paragraph (the
/// range's lines, without a final empty line of the document), rewrapped to
/// column 80 (`DEFAULT_WRAP_COLUMN`), takes the paragraph's place and every
/// other line is kept; a change is reported exactly when the rewrapped lines
/// differ from the paragraph; the selection is gone; and after a change the cursor is at
/// column 0 of its line, or of the last rewrapped line when it was below
/// that, while without a change it stays where it was.
pub proof fn lemma_rewrap_document_effect(
    lines: Seq<Seq<char>>,
    filename: Seq<char>,
    tab_width: int,
    cursor: Point,
    selection: Option<(Point, Point)>,
)
    requires
        lines.len() >= 1,
        all_no_newline(lines),
        cursor.y < lines.len(),
        selection matches Some((b, e)) ==> b.y < lines.len() && e.y < lines.len(),
        tab_width >= 0,
    ensures
        ({
            let o = spec_rewrap_document(lines, filename, tab_width, cursor, selection);
            let (s, e) = rewrapped_lines(lines, filename, cursor, selection);
            let markers = spec_markers_for_extension(spec_extension(filename));
            let para = paragraph_lines(lines, s, e);
            let r = spec_rewrap_lines(para, markers, 80, tab_width);
            let last = s + r.len() - 1;
            &&& 0 <= s < e <= lines.len()
            &&& o.selection is None
            &&& o.changed <==> r != para
            &&& o.changed ==> o.lines == lines.subrange(0, s) + r + lines.subrange(
                s + para.len(),
                lines.len() as int,
            )
            &&& o.changed ==> o.cursor == Point {
                x: 0,
                y: (if cursor.y <= last {
                    cursor.y as int
                } else {
                    last
                }) as usize,
            }
            &&& !o.changed ==> o.lines == lines && o.cursor == cursor
        }),
{
    let markers = spec_markers_for_extension(spec_extension(filename));
    let range = rewrap_range(lines, markers, cursor, selection);
    let count = lines.len() as int;
    if selection is None {
        lemma_paragraph_range(lines, markers, cursor);
    }
    let start = range.0;
    assert(start < range.1 && start < count);
    let e = if range.1 >= count {
        count
    } else {
        range.1
    };
    lemma_rewrite_keeps_lines(lines, markers, start, e, tab_width);
}

/// The paragraph that the command rewraps from lines `start..e`: those
/// lines, without a final empty line of the document (the empty piece after
/// its last newline).
pub open spec fn paragraph_lines(lines: Seq<Seq<char>>, start: int, e: int) -> Seq<Seq<char>> {
    if e == lines.len() && e - start > 1 && lines[e - 1].len() == 0 {
        lines.subrange(start, e - 1)
    } else {
        lines.subrange(start, e)
    }
}

/// The text of lines `start..e` is their paragraph joined, with a final
/// newline exactly when its pieces end with an empty one.
proof fn lemma_selected_paragraph(lines: Seq<Seq<char>>, start: int, e: int)
    requires
        all_no_newline(lines),
        0 <= start < e <= lines.len(),
    ensures
        ({
            let t = selected_text(lines, start, e);
            let para = paragraph_lines(lines, start, e);
            let ends_nl = t.len() > 0 && t.last() == '\n';
            &&& text_paragraph(t) == para
            &&& para.len() >= 1
            &&& all_no_newline(para)
            &&& t == replacement_text(t, para)
            &&& split_newlines(t) == (if ends_nl {
                para.push(Seq::<char>::empty())
            } else {
                para
            })
            &&& e < lines.len() ==> ends_nl && para.len() == e - start
            &&& e == lines.len() ==> lines.subrange(start + para.len(), lines.len() as int) == (
            if ends_nl {
                seq![Seq::<char>::empty()]
            } else {
                Seq::<Seq<char>>::empty()
            })
        }),
{
    let count = lines.len() as int;
    let t = selected_text(lines, start, e);
    let para = text_paragraph(t);
    lemma_split_selected(lines, start, e);
    let sub = lines.subrange(start, e);
    let ends_nl = t.len() > 0 && t.last() == '\n';
    assert(all_no_newline(sub)) by {
        assert forall|i: int| 0 <= i < sub.len() implies no_newline(#[trigger] sub[i]) by {
            assert(sub[i] == lines[start + i]);
        }
    }
    if e < count {
        lemma_join_push_empty(sub);
        assert(t == join_newlines(sub).push('\n'));
        assert(split_newlines(t).drop_last() =~= sub);
        assert(para =~= sub);
    } else {
        assert(split_newlines(t) == sub);
        if ends_nl {
            lemma_split_len(t.drop_last());
            assert(split_newlines(t) == split_newlines(t.drop_last()).push(Seq::<char>::empty()));
            assert(para =~= sub.drop_last());
            assert(sub =~= para.push(Seq::<char>::empty()));
            lemma_join_push_empty(para);
            assert(lines.subrange(start + para.len(), count) =~= seq![Seq::<char>::empty()]) by {
                assert(lines[count - 1] == sub.last());
            }
        } else {
            assert(para =~= sub);
            assert(t == join_newlines(sub));
            assert(lines.subrange(start + para.len(), count) =~= Seq::<Seq<char>>::empty());
        }
    }
    assert(para == paragraph_lines(lines, start, e)) by {
        if e == count && e - start > 1 && lines[e - 1].len() == 0 {
            assert(sub.last() == lines[e - 1]);
        }
    }
    assert(all_no_newline(para)) by {
        assert forall|i: int| 0 <= i < para.len() implies no_newline(#[trigger] para[i]) by {
            assert(para[i] == lines[start + i]);
        }
    }
}

/// Replacing lines `start..e` by their rewrapped text puts the rewrapped
/// lines in the place of the paragraph and keeps every other line; the text
/// is the same exactly when the rewrapped lines are the paragraph's.
proof fn lemma_rewrite_keeps_lines(
    lines: Seq<Seq<char>>,
    markers: Seq<Seq<char>>,
    start: int,
    e: int,
    tab_width: int,
)
    requires
        all_no_newline(lines),
        0 <= start < e <= lines.len(),
        tab_width >= 0,
    ensures
        ({
            let t = selected_text(lines, start, e);
            let para = paragraph_lines(lines, start, e);
            let r = spec_rewrap_lines(text_paragraph(t), markers, DEFAULT_WRAP_COLUMN as int, tab_width);
            let nl = replace_text(lines, start, e, replacement_text(t, r));
            &&& text_paragraph(t) == para
            &&& r.len() >= 1
            &&& nl.len() >= start + r.len()
            &&& all_no_newline(nl)
            &&& nl == lines.subrange(0, start) + r + lines.subrange(
                start + para.len(),
                lines.len() as int,
            )
            &&& (replacement_text(t, r) == t <==> r == para)
        }),
{
    let count = lines.len() as int;
    let t = selected_text(lines, start, e);
    lemma_selected_paragraph(lines, start, e);
    let para = paragraph_lines(lines, start, e);
    let r = spec_rewrap_lines(para, markers, DEFAULT_WRAP_COLUMN as int, tab_width);
    let rep = replacement_text(t, r);
    let ends_nl = t.len() > 0 && t.last() == '\n';
    lemma_rewrap_laws(para, markers, DEFAULT_WRAP_COLUMN as int, tab_width);
    let pieces = split_newlines(rep);
    if ends_nl {
        lemma_split_join_newline(r);
        assert(pieces == r.push(Seq::<char>::empty()));
        if rep == t {
            assert(r =~= pieces.drop_last());
            assert(para =~= split_newlines(t).drop_last());
        }
    } else {
        lemma_split_join(r);
        assert(pieces == r);
    }
    let nl = replace_text(lines, start, e, rep);
    if e < count {
        assert(pieces.drop_last() =~= r);
        assert(pieces.last() + lines[e] =~= lines[e]);
        assert(nl =~= lines.subrange(0, start) + r + lines.subrange(e, count));
    } else {
        assert(nl =~= lines.subrange(0, start) + pieces);
        assert(nl =~= lines.subrange(0, start) + r + lines.subrange(start + para.len(), count));
    }
    assert forall|i: int| 0 <= i < nl.len() implies no_newline(#[trigger] nl[i]) by {
        if i < start {
            assert(nl[i] == lines[i]);
        } else if i < start + r.len() {
            assert(nl[i] == r[i - start]);
        } else {
            assert(nl[i] == lines[start + para.len() + i - start - r.len()]);
        }
    }
}

/// The rewrap command never computes a column beyond `usize::MAX`: the
/// paragraph that it rewraps (if any) fits.
pub open spec fn rewrap_document_fits(
    lines: Seq<Seq<char>>,
    filename: Seq<char>,
    tab_width: int,
    cursor: Point,
    selection: Option<(Point, Point)>,
) -> bool {
    let count = lines.len() as int;
    let markers = spec_markers_for_extension(spec_extension(filename));
    let range = rewrap_range(lines, markers, cursor, selection);
    let start = range.0;
    let end = range.1;
    !(start >= end || start >= count) ==> {
        let e = if end >= count {
            count
        } else {
            end
        };
        rewrap_fits(
            text_paragraph(selected_text(lines, start, e)),
            markers,
            DEFAULT_WRAP_COLUMN as int,
            tab_width,
        )
    }
}

/// Lower-cases an ASCII letter.
pub fn to_ascii_lower(c: char) -> (r: char)
    ensures
        r == ascii_lower(c),
{
    if 'A' <= c && c <= 'Z' {
        let b = (c as u32) as u8;
        (b + 32) as char
    } else {
        c
    }
}

/// The extension of a file name in lower case.
pub fn extension_of(filename: &str) -> (r: Vec<char>)
    ensures
        r@ == spec_extension(filename@),
{
    let name = chars_of(filename);
    let n = name.len();
    assert(name@.subrange(0, n as int) =~= name@);
    // Find the last '.'.
    let mut k = n;
    while k > 0 && name[k - 1] != '.'
        invariant
            k <= n == name@.len(),
            last_dot(name@) == last_dot(name@.subrange(0, k as int)),
        decreases k,
    {
        assert(name@.subrange(0, k as int).drop_last() =~= name@.subrange(0, k - 1));
        k = k - 1;
    }
    if k > 0 {
        assert(last_dot(name@.subrange(0, k as int)) == Some(k - 1));
    } else {
        assert(last_dot(name@.subrange(0, 0)) == None::<int>);
    }
    let ghost base = name@.skip(k as int);
    assert(k == 0 ==> base =~= name@);
    let mut r: Vec<char> = Vec::new();
    let mut j = k;
    while j < n
        invariant
            k <= j <= n == name@.len(),
            base == name@.skip(k as int),
            r@ =~= base.subrange(0, j - k).map_values(|c: char| ascii_lower(c)),
        decreases n - j,
    {
        let lc = to_ascii_lower(name[j]);
        r.push(lc);
        assert(base.subrange(0, j + 1 - k) =~= base.subrange(0, j - k).push(name@[j as int]));
        j = j + 1;
    }
    assert(base.subrange(0, n - k) =~= base);
    r
}

/// The range of lines to rewrap (see `rewrap_range`).
fn range_to_rewrap(
    lines: &Vec<Vec<char>>,
    markers: &Vec<Vec<char>>,
    cursor: Point,
    selection: Option<(Point, Point)>,
) -> (r: (usize, usize))
    requires
        all_no_newline(seqs_of(lines@)),
        cursor.y < lines@.len(),
        selection matches Some((b, e)) ==> b.y < lines@.len() && e.y < lines@.len(),
    ensures
        (r.0 as int, r.1 as int) == rewrap_range(seqs_of(lines@), seqs_of(markers@), cursor, selection),
{
    let ghost ls = seqs_of(lines@);
    let count = lines.len();
    match selection {
        Some((a, b)) => {
            // The earlier end first.
            let (beg, end) = if a.y < b.y || (a.y == b.y && a.x <= b.x) {
                (a, b)
            } else {
                (b, a)
            };
            let mut end_y = end.y;
            // If selection ends at column 0, don't include that line.
            if end.x == 0 && end_y > beg.y {
                end_y = end_y - 1;
            }
            (beg.y, end_y + 1)
        },
        None => {
            // Find paragraph around cursor, within a window of lines around it.
            let cursor_y = cursor.y;
            let window_start = if cursor_y >= PARAGRAPH_WINDOW {
                cursor_y - PARAGRAPH_WINDOW
            } else {
                0
            };
            let window_end = if count - cursor_y > PARAGRAPH_WINDOW + 1 {
                cursor_y + PARAGRAPH_WINDOW + 1
            } else {
                count
            };
            let text = selected_chars(lines, window_start, window_end);
            let window_lines = split_chars(&text);
            proof {
                lemma_split_selected(ls, window_start as int, window_end as int);
            }
            let cursor_idx = cursor_y - window_start;
            let (first, last) = find_paragraph_chars(&window_lines, cursor_idx, markers);
            proof {
                lemma_paragraph_result_is_spec(
                    seqs_of(window_lines@),
                    seqs_of(markers@),
                    cursor_idx as int,
                    (first, last),
                );
            }
            (window_start + first, window_start + last + 1)
        },
    }
}

/// Rewraps the text from the start of line `start` to the start of line
/// `end` (or to the end of the document).  Gives `None` when the rewrapped
/// text is the same, and otherwise the new lines of the document and the
/// number of rewrapped lines.
fn rewrite_range(
    lines: &Vec<Vec<char>>,
    markers: &Vec<Vec<char>>,
    start: usize,
    end: usize,
    tab_width: usize,
) -> (res: Option<(Vec<Vec<char>>, usize)>)
    requires
        all_no_newline(seqs_of(lines@)),
        start < end <= lines@.len(),
        rewrap_fits(
            text_paragraph(selected_text(seqs_of(lines@), start as int, end as int)),
            seqs_of(markers@),
            DEFAULT_WRAP_COLUMN as int,
            tab_width as int,
        ),
    ensures
        ({
            let t = selected_text(seqs_of(lines@), start as int, end as int);
            let r = spec_rewrap_lines(text_paragraph(t), seqs_of(markers@), DEFAULT_WRAP_COLUMN as int, tab_width as int);
            let rep = replacement_text(t, r);
            match res {
                None => rep == t,
                Some((nl, k)) => rep != t && seqs_of(nl@) == replace_text(
                    seqs_of(lines@),
                    start as int,
                    end as int,
                    rep,
                ) && k == r.len() && k >= 1,
            }
        }),
{
    let ghost ls = seqs_of(lines@);
    let ghost mk = seqs_of(markers@);
    let max_width = DEFAULT_WRAP_COLUMN;
    let text = selected_chars(lines, start, end);
    let ghost t = text@;
    let parts = split_chars(&text);
    proof {
        lemma_split_selected(ls, start as int, end as int);
        lemma_split_len(t);
    }
    // Remove the trailing empty line that a final newline leaves.
    let mut para = parts;
    if para.len() > 1 && para[para.len() - 1].len() == 0 {
        let _ = para.pop();
    }
    let ghost pl = seqs_of(para@);
    assert(pl =~= text_paragraph(t));
    proof {
        // The paragraph is a non-empty run of the document's lines.
        let sub_end: int = if pl.len() == end - start {
            end as int
        } else {
            end - 1
        };
        assert(pl =~= ls.subrange(start as int, sub_end));
        lemma_rewrap_laws(pl, mk, max_width as int, tab_width as int);
    }
    // Rewrap the lines.
    let rewrapped = rewrap_chars(&para, markers, max_width, tab_width);
    // Build replacement text.
    let mut replacement = join_chars(&rewrapped);
    // If the original text ended with a newline, preserve it.
    if text.len() > 0 && text[text.len() - 1] == '\n' {
        replacement.push('\n');
    }
    // Check if anything actually changed.
    if chars_eq(replacement.as_slice(), text.as_slice()) {
        return None;
    }
    let new_lines = replace_chars(lines, start, end, &replacement);
    Some((new_lines, rewrapped.len()))
}

/// The rewrap command on one document; returns whether its text changed.
pub fn rewrap_document(doc: &mut Document) -> (changed: bool)
    requires
        old(doc).wf(),
        rewrap_document_fits(
            old(doc).text_lines(),
            old(doc).filename@,
            old(doc).tab_size as int,
            old(doc).cursor,
            old(doc).selection,
        ),
    ensures
        ({
            let o = spec_rewrap_document(
                old(doc).text_lines(),
                old(doc).filename@,
                old(doc).tab_size as int,
                old(doc).cursor,
                old(doc).selection,
            );
            &&& final(doc).text_lines() == o.lines
            &&& final(doc).cursor == o.cursor
            &&& final(doc).selection == o.selection
            &&& changed == o.changed
            &&& final(doc).filename@ == old(doc).filename@
            &&& final(doc).tab_size == old(doc).tab_size
            &&& final(doc).wf()
        }),
{
    proof {
        lemma_rewrap_document_laws(
            doc.text_lines(),
            doc.filename@,
            doc.tab_size as int,
            doc.cursor,
            doc.selection,
        );
    }
    let lines = chars_of_strings(doc.lines.as_slice());
    let count = lines.len();
    let tab_width = doc.tab_size;
    // Determine file extension for comment marker detection.
    let ext = extension_of(doc.filename.as_str());
    let ext_str = string_of(ext.as_slice(), 0, ext.len());
    assert(ext@.subrange(0, ext@.len() as int) =~= ext@);
    let markers = comment_markers_for_extension(ext_str.as_str());
    let ms = marker_chars(&markers);
    // Determine the range of lines to rewrap.
    let (start_line, end_line_exclusive) = range_to_rewrap(&lines, &ms, doc.cursor, doc.selection);
    if start_line >= end_line_exclusive || start_line >= count {
        return false;
    }
    let end = if end_line_exclusive >= count {
        count
    } else {
        end_line_exclusive
    };
    match rewrite_range(&lines, &ms, start_line, end, tab_width) {
        None => {
            doc.selection = None;
            false
        },
        Some((new_lines, rewrapped_len)) => {
            doc.lines = strings_of(&new_lines);
            // Restore cursor to a reasonable position.
            let cursor_y = doc.cursor.y;
            let new_cursor_y = if cursor_y < start_line || cursor_y - start_line < rewrapped_len
                - 1 {
                cursor_y
            } else {
                start_line + rewrapped_len - 1
            };
            doc.cursor = Point { x: 0, y: new_cursor_y };
            doc.selection = None;
            true
        },
    }
}

/// Main entry point: execute the rewrap command.
pub fn execute(ctx: &mut Context, state: &mut State)
    requires
        old(state).active matches Some(d) ==> d.wf() && rewrap_document_fits(
            d.text_lines(),
            d.filename@,
            d.tab_size as int,
            d.cursor,
            d.selection,
        ),
    ensures
        match old(state).active {
            None => final(state).active is None && final(ctx).needs_rerender == old(
                ctx,
            ).needs_rerender,
            Some(d) => final(state).active matches Some(n) && {
                let o = spec_rewrap_document(
                    d.text_lines(),
                    d.filename@,
                    d.tab_size as int,
                    d.cursor,
                    d.selection,
                );
                &&& n.text_lines() == o.lines
                &&& n.cursor == o.cursor
                &&& n.selection == o.selection
                &&& n.filename@ == d.filename@
                &&& n.tab_size == d.tab_size
                &&& n.wf()
                &&& final(ctx).needs_rerender == (old(ctx).needs_rerender || o.changed)
            },
        },
{
    let active = state.active.take();
    match active {
        None => {},
        Some(doc) => {
            let mut doc = doc;
            let changed = rewrap_document(&mut doc);
            state.active = Some(doc);
            if changed {
                ctx.needs_rerender();
            }
        },
    }
}

} // verus!
