//! Reflowing comment and text paragraphs to a column limit.
//!
//! A paragraph is a run of non-blank lines that share a prefix (indentation
//! and comment marker).  Rewrapping joins the contents of its lines and
//! breaks them again greedily so that each line fits the column limit,
//! putting the prefix of the first line in front of every new line.
use vstd::prelude::*;

pub mod text;
pub mod width;
pub mod breaking;
pub mod markers;
pub mod paragraph;
pub mod wrap;
pub mod plain;
pub mod lines;
pub mod editor;

pub use breaking::break_string;
pub use editor::{execute, Context, Document, Point, State};
pub use markers::{
    comment_markers_for_extension, detect_prefix, is_blank_content, prefixes_compatible,
    CommentMarkers, LinePrefix,
};
pub use paragraph::find_paragraph;
pub use width::{can_break_between, char_column_width, is_cjk, is_cjk_no_end, is_cjk_no_start};
pub use wrap::{concatenate_lines, rewrap_lines};

verus! {
}
