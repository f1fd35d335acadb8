use rewrap::breaking::break_string;
use rewrap::editor::{execute, extension_of, to_ascii_lower, Context, Document, Point, State};
use rewrap::markers::{
    comment_markers_for_extension, detect_prefix, is_blank_content, prefixes_compatible,
};
use rewrap::paragraph::find_paragraph;
use rewrap::text::is_whitespace;
use rewrap::width::{can_break_between, char_column_width, is_cjk, is_cjk_no_end, is_cjk_no_start};
use rewrap::wrap::{concatenate_lines, rewrap_lines};

fn strings(v: &[&str]) -> Vec<String> {
    v.iter().map(|s| s.to_string()).collect()
}

fn doc(name: &str, lines: &[&str], cursor: Point, selection: Option<(Point, Point)>) -> Document {
    Document {
        filename: name.to_string(),
        lines: strings(lines),
        tab_size: 4,
        cursor,
        selection,
    }
}

fn visible(s: &str) -> String {
    s.chars().filter(|c| !c.is_whitespace()).collect()
}

#[test]
fn whitespace_matches_std_for_every_char() {
    for u in 0u32..=0x10ffff {
        if let Some(c) = char::from_u32(u) {
            assert_eq!(is_whitespace(c), c.is_whitespace(), "U+{:04X}", u);
        }
    }
}

#[test]
fn ascii_lower_matches_std() {
    for u in 0u32..0x300 {
        let c = char::from_u32(u).unwrap();
        assert_eq!(to_ascii_lower(c), c.to_ascii_lowercase());
    }
}

#[test]
fn extension_is_after_last_dot_lower_cased() {
    let e: String = extension_of("src/Main.RS").into_iter().collect();
    assert_eq!(e, "rs");
    let e: String = extension_of("archive.tar.GZ").into_iter().collect();
    assert_eq!(e, "gz");
    let e: String = extension_of("Makefile").into_iter().collect();
    assert_eq!(e, "makefile");
    let e: String = extension_of("name.").into_iter().collect();
    assert_eq!(e, "");
}

#[test]
fn tab_reaches_next_stop() {
    for tab in 1usize..9 {
        for col in 0usize..40 {
            let w = char_column_width('\t', tab, col);
            assert!(w >= 1 && w <= tab);
            assert_eq!((col + w) % tab, 0);
        }
    }
    assert_eq!(char_column_width('\t', 0, 7), 1);
}

#[test]
fn widths_of_other_characters() {
    assert_eq!(char_column_width('\u{1}', 4, 0), 0);
    assert_eq!(char_column_width('\u{7f}', 4, 0), 1);
    assert_eq!(char_column_width('\u{1F600}', 4, 0), 2);
    assert_eq!(char_column_width('\u{FF01}', 4, 3), 2);
    assert_eq!(char_column_width('\u{2E7F}', 4, 3), 1);
    assert!(!is_cjk('\u{1F600}'));
    assert!(is_cjk('中'));
    assert!(is_cjk('\u{20000}'));
}

#[test]
fn cjk_punctuation_classes() {
    for c in [')', ']', '}', '>', '）', '】', '》', '」', '』', '〉', '〕', '〗', '〙', '〛', '。', '、', '，', '．', '：', '；', '！', '？', 'ー'] {
        assert!(is_cjk_no_start(c), "{:?}", c);
    }
    for c in ['(', '[', '{', '<', '（', '【', '《', '「', '『', '〈', '〔', '〖', '〘', '〚'] {
        assert!(is_cjk_no_end(c), "{:?}", c);
    }
    assert!(!is_cjk_no_start('a'));
    assert!(!is_cjk_no_end('a'));
}

#[test]
fn break_opportunities() {
    assert!(can_break_between('a', ' '));
    assert!(can_break_between(' ', 'a'));
    assert!(!can_break_between('a', 'b'));
    assert!(can_break_between('中', '文'));
    assert!(can_break_between('a', '中'));
    assert!(!can_break_between('中', '。'));
    assert!(!can_break_between('「', '中'));
}

#[test]
fn markers_by_extension() {
    assert_eq!(comment_markers_for_extension("rs").line, vec!["///", "//!", "//"]);
    assert_eq!(comment_markers_for_extension("cpp").line, vec!["///", "//"]);
    assert_eq!(comment_markers_for_extension("toml").line, vec!["##", "#"]);
    assert_eq!(comment_markers_for_extension("sql").line, vec!["--"]);
    assert_eq!(comment_markers_for_extension("el").line, vec![";;", ";"]);
    assert_eq!(comment_markers_for_extension("bat").line, vec!["rem ", "::"]);
    assert_eq!(comment_markers_for_extension("tex").line, vec!["%"]);
    assert_eq!(comment_markers_for_extension("f90").line, vec!["!"]);
    assert_eq!(
        comment_markers_for_extension("md").line,
        vec!["///", "//", "##", "--", ";;", "#", ";", "%", "!"]
    );
    assert_eq!(comment_markers_for_extension("RS").line.len(), 9);
    for ext in ["rs", "c", "py", "lua", "el", "bat", "tex", "f", "txt"] {
        let m = comment_markers_for_extension(ext).line;
        for k in 1..m.len() {
            assert!(m[k - 1].len() >= m[k].len(), "{} {:?}", ext, m);
        }
    }
}

#[test]
fn prefix_without_space_and_reconstruction() {
    let markers = comment_markers_for_extension("rs");
    for line in ["//x", "\t//! doc", "   plain", "", "  //", "/// two  spaces", "//!"] {
        let p = detect_prefix(line, &markers);
        assert_eq!(format!("{}{}", p.prefix, p.content), line);
    }
    let p = detect_prefix("//x", &markers);
    assert_eq!(p.prefix, "//");
    assert_eq!(p.content, "x");
    let p = detect_prefix("  //  two", &markers);
    assert_eq!(p.prefix, "  // ");
    assert_eq!(p.content, " two");
    let p = detect_prefix("\u{3000}text", &markers);
    assert_eq!(p.prefix, "\u{3000}");
    assert_eq!(p.content, "text");
}

#[test]
fn blank_content_and_compatibility() {
    let markers = comment_markers_for_extension("rs");
    assert!(is_blank_content("   //   ", &markers));
    assert!(is_blank_content("", &markers));
    assert!(!is_blank_content("// a", &markers));
    let a = detect_prefix("// a", &markers);
    let b = detect_prefix("// b", &markers);
    let c = detect_prefix("/// c", &markers);
    assert!(prefixes_compatible(&a, &b));
    assert!(!prefixes_compatible(&a, &c));
}

#[test]
fn paragraph_edges() {
    let markers = comment_markers_for_extension("rs");
    let lines = strings(&["// a", "/// b", "/// c", "", "x"]);
    assert_eq!(find_paragraph(&lines, 1, &markers), (1, 2));
    assert_eq!(find_paragraph(&lines, 0, &markers), (0, 0));
    assert_eq!(find_paragraph(&lines, 3, &markers), (3, 3));
    assert_eq!(find_paragraph(&lines, 4, &markers), (4, 4));
    assert_eq!(find_paragraph(&lines, 9, &markers), (9, 9));
    // Every line of a paragraph finds the same paragraph.
    let lines = strings(&["  one", "  two", "  three", "four"]);
    for k in 0..3 {
        assert_eq!(find_paragraph(&lines, k, &markers), (0, 2));
    }
}

#[test]
fn concatenate_cjk_and_blank_pieces() {
    assert_eq!(concatenate_lines(&["中", "文"]), "中文");
    assert_eq!(concatenate_lines(&["中", "a"]), "中 a");
    assert_eq!(concatenate_lines(&["", "a", "  ", "b  "]), "a b");
    assert_eq!(concatenate_lines(&[]), "");
}

#[test]
fn break_string_cases() {
    assert_eq!(break_string("ab\ncd", 80, 4), vec!["ab", "cd"]);
    assert_eq!(break_string("ab  \n\ncd  ", 80, 4), vec!["ab", "", "cd"]);
    assert_eq!(break_string("   ", 80, 4), vec![""]);
    assert_eq!(break_string("\n", 80, 4), vec![""]);
    assert_eq!(break_string("中文中文中文", 4, 4), vec!["中文", "中文", "中文"]);
    assert_eq!(break_string("中文。中文", 4, 4), vec!["中", "文。", "中文"]);
    assert_eq!(break_string("a\tb c", 5, 4), vec!["a\tb", "c"]);
    assert_eq!(break_string("aaaa bbbb", 0, 4), vec!["aaaa", "bbbb"]);
}

#[test]
fn break_string_keeps_words_and_fits() {
    let text = "The quick brown fox jumps over the lazy dog and keeps on running far away";
    for width in 1usize..30 {
        let lines = break_string(text, width, 4);
        let joined: String = lines.iter().map(|l| visible(l)).collect();
        assert_eq!(joined, visible(text));
        for l in &lines {
            assert!(!l.ends_with(' '));
            let breakable = l.contains(' ');
            assert!(l.chars().count() <= width || !breakable, "{:?} at {}", l, width);
        }
    }
}

#[test]
fn rewrap_empty_and_prefixes() {
    let markers = comment_markers_for_extension("py");
    assert!(rewrap_lines(&[], &markers, 80, 4).is_empty());
    let lines = strings(&["    # alpha beta", "    # gamma delta epsilon", "    #zeta"]);
    let out = rewrap_lines(&lines, &markers, 20, 4);
    assert_eq!(out, vec!["    # alpha beta", "    # gamma delta", "    # epsilon zeta"]);
    let before: String = lines.iter().map(|l| visible(&l.replacen('#', "", 1))).collect();
    let after: String = out.iter().map(|l| visible(&l["    # ".len()..])).collect();
    assert_eq!(before, after);
}

#[test]
fn rewrap_narrow_prefix_uses_one_column() {
    let markers = comment_markers_for_extension("rs");
    let lines = strings(&["        // a b"]);
    assert_eq!(rewrap_lines(&lines, &markers, 5, 4), vec!["        // a", "        // b"]);
}

#[test]
fn execute_rewraps_paragraph_around_cursor() {
    let mut state = State {
        active: Some(doc(
            "main.rs",
            &["// aaa bbb", "// ccc", "", "fn main() {}"],
            Point { x: 3, y: 1 },
            None,
        )),
    };
    let mut ctx = Context { needs_rerender: false };
    execute(&mut ctx, &mut state);
    let d = state.active.unwrap();
    assert_eq!(d.lines, strings(&["// aaa bbb ccc", "", "fn main() {}"]));
    assert_eq!(d.cursor, Point { x: 0, y: 0 });
    assert!(d.selection.is_none());
    assert!(ctx.needs_rerender);
}

#[test]
fn execute_leaves_wrapped_text_alone() {
    let mut state = State {
        active: Some(doc("notes.txt", &["already fine", "", "next"], Point { x: 2, y: 0 }, None)),
    };
    let mut ctx = Context { needs_rerender: false };
    execute(&mut ctx, &mut state);
    let d = state.active.unwrap();
    assert_eq!(d.lines, strings(&["already fine", "", "next"]));
    assert_eq!(d.cursor, Point { x: 2, y: 0 });
    assert!(!ctx.needs_rerender);
}

#[test]
fn execute_rewraps_selection_and_drops_it() {
    let sel = Some((Point { x: 0, y: 0 }, Point { x: 0, y: 2 }));
    let mut state = State {
        active: Some(doc("a.py", &["# one", "# two", "# three", "# four"], Point { x: 0, y: 2 }, sel)),
    };
    let mut ctx = Context { needs_rerender: false };
    execute(&mut ctx, &mut state);
    let d = state.active.unwrap();
    // The selection ends at the start of line 2, which is left out.
    assert_eq!(d.lines, strings(&["# one two", "# three", "# four"]));
    assert_eq!(d.cursor, Point { x: 0, y: 0 });
    assert!(d.selection.is_none());
    assert!(ctx.needs_rerender);
}

#[test]
fn execute_unchanged_selection_is_cleared() {
    let sel = Some((Point { x: 0, y: 0 }, Point { x: 3, y: 0 }));
    let mut state = State { active: Some(doc("a.py", &["# one"], Point { x: 3, y: 0 }, sel)) };
    let mut ctx = Context { needs_rerender: false };
    execute(&mut ctx, &mut state);
    let d = state.active.unwrap();
    assert_eq!(d.lines, strings(&["# one"]));
    assert!(d.selection.is_none());
    assert_eq!(d.cursor, Point { x: 3, y: 0 });
    assert!(!ctx.needs_rerender);
}

#[test]
fn execute_to_end_of_document() {
    let long = "word ".repeat(30);
    let mut state = State {
        active: Some(doc("x.md", &["title", "", long.trim_end()], Point { x: 0, y: 2 }, None)),
    };
    let mut ctx = Context { needs_rerender: false };
    execute(&mut ctx, &mut state);
    let d = state.active.unwrap();
    assert_eq!(d.lines.len(), 4);
    assert_eq!(&d.lines[..2], &strings(&["title", ""])[..]);
    assert!(d.lines[2..].iter().all(|l| l.len() <= 80));
    assert_eq!(d.cursor, Point { x: 0, y: 2 });
    assert!(ctx.needs_rerender);
}

#[test]
fn execute_blank_line_does_nothing() {
    let mut state = State {
        active: Some(doc("x.rs", &["// a", "", "// b"], Point { x: 0, y: 1 }, None)),
    };
    let mut ctx = Context { needs_rerender: false };
    execute(&mut ctx, &mut state);
    let d = state.active.unwrap();
    assert_eq!(d.lines, strings(&["// a", "", "// b"]));
    assert!(!ctx.needs_rerender);
}

#[test]
fn execute_without_document() {
    let mut state = State { active: None };
    let mut ctx = Context { needs_rerender: false };
    execute(&mut ctx, &mut state);
    assert!(state.active.is_none());
    assert!(!ctx.needs_rerender);
}

#[test]
fn break_string_keeps_words_whole() {
    let text = "alpha beta\tgamma  delta\nepsilon zeta eta theta iota";
    for width in 0usize..25 {
        let lines = break_string(text, width, 4);
        let got: Vec<&str> = lines.iter().flat_map(|l| l.split_whitespace()).collect();
        let want: Vec<&str> = text.split_whitespace().collect();
        assert_eq!(got, want, "width {}", width);
    }
}

#[test]
fn concatenate_keeps_words_whole() {
    let contents = ["one two  ", "  three", "", "four\tfive "];
    let joined = concatenate_lines(&contents);
    let got: Vec<&str> = joined.split_whitespace().collect();
    let want: Vec<&str> = contents.iter().flat_map(|s| s.split_whitespace()).collect();
    assert_eq!(got, want);
    assert_eq!(joined, joined.trim_end());
}

#[test]
fn rewrap_twice_is_rewrap_once() {
    let markers = comment_markers_for_extension("rs");
    let lines = strings(&[
        "// the quick brown fox",
        "// jumps over the lazy dog again and again",
        "// and then it rests",
    ]);
    for width in [5usize, 10, 17, 30, 80] {
        let once = rewrap_lines(&lines, &markers, width, 4);
        let twice = rewrap_lines(&once, &markers, width, 4);
        assert_eq!(once, twice, "width {}", width);
    }
}

#[test]
fn huge_tab_width_without_overflow() {
    assert_eq!(break_string("ab", 10, usize::MAX - 1), vec!["ab"]);
    let markers = comment_markers_for_extension("rs");
    let lines = strings(&["// a"]);
    assert_eq!(rewrap_lines(&lines, &markers, 80, 1usize << 62), vec!["// a"]);
    let mut state = State {
        active: Some(Document {
            filename: "x.rs".to_string(),
            lines: strings(&["// a", "// b"]),
            tab_size: 1usize << 62,
            cursor: Point { x: 0, y: 0 },
            selection: None,
        }),
    };
    let mut ctx = Context { needs_rerender: false };
    execute(&mut ctx, &mut state);
    assert_eq!(state.active.unwrap().lines, strings(&["// a b"]));
    assert!(ctx.needs_rerender);
}

#[test]
fn execute_reversed_selection_is_the_same_range() {
    let forward = Some((Point { x: 0, y: 0 }, Point { x: 0, y: 2 }));
    let backward = Some((Point { x: 0, y: 2 }, Point { x: 0, y: 0 }));
    let lines = ["# one", "# two", "# three", "# four"];
    let mut results = Vec::new();
    for sel in [forward, backward] {
        let mut state = State { active: Some(doc("a.py", &lines, Point { x: 0, y: 2 }, sel)) };
        let mut ctx = Context { needs_rerender: false };
        execute(&mut ctx, &mut state);
        results.push(state.active.unwrap().lines);
    }
    assert_eq!(results[0], strings(&["# one two", "# three", "# four"]));
    assert_eq!(results[0], results[1]);
}
