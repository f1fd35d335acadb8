# rewrap

Reflowing of comment and plain-text paragraphs to a column limit, written in
Verus with its behaviour stated in contracts and proved.

- `src/text.rs` – Unicode whitespace, trimming, visible characters, and
  conversions between strings and character vectors.
- `src/width.rs` – display widths (tabs, control characters, wide CJK and
  emoji) and the character classes that decide where a line may break.
- `src/breaking.rs` – the greedy line breaker, its step-by-step definition
  and the laws it satisfies (no newline or trailing whitespace in a line,
  visible characters kept in order, words kept whole and in order for text
  without CJK characters, every line fits unless it cannot be broken).
- `src/markers.rs` – comment markers per file extension and splitting a line
  into prefix and content.
- `src/paragraph.rs` – the paragraph around a line.
- `src/wrap.rs` – joining paragraph contents and rewrapping a paragraph.
- `src/plain.rs` – plain `//` comment paragraphs, on which rewrapping twice
  gives the same lines as rewrapping once.
- `src/lines.rs` – a document as lines: split, join, selected text, replacement.
- `src/editor.rs` – the rewrap command on a document (selection or paragraph
  around the cursor), with the laws it keeps.

`tests/` holds the test suite.
