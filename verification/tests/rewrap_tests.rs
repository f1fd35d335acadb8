use rewrap::{
    break_string, char_column_width, comment_markers_for_extension, concatenate_lines,
    detect_prefix, find_paragraph, rewrap_lines,
};

#[test]
fn test_break_string_basic() {
    let result = break_string("hello world foo bar baz", 10, 4);
    assert_eq!(result, vec!["hello", "world foo", "bar baz"]);
}

#[test]
fn test_break_string_long_word() {
    let result = break_string("superlongword short", 10, 4);
    assert_eq!(result, vec!["superlongword", "short"]);
}

#[test]
fn test_break_string_exact_fit() {
    let result = break_string("1234567890", 10, 4);
    assert_eq!(result, vec!["1234567890"]);
}

#[test]
fn test_break_string_empty() {
    let result = break_string("", 80, 4);
    assert_eq!(result, vec![""]);
}

#[test]
fn test_concatenate_lines_basic() {
    let lines = vec!["hello", "world"];
    assert_eq!(concatenate_lines(&lines), "hello world");
}

#[test]
fn test_concatenate_lines_trim() {
    let lines = vec!["hello  ", "  world"];
    assert_eq!(concatenate_lines(&lines), "hello   world");
}

#[test]
fn test_detect_prefix_rust_comment() {
    let markers = comment_markers_for_extension("rs");
    let p = detect_prefix("    // some text", &markers);
    assert_eq!(p.prefix, "    // ");
    assert_eq!(p.content, "some text");
}

#[test]
fn test_detect_prefix_rust_doc_comment() {
    let markers = comment_markers_for_extension("rs");
    let p = detect_prefix("    /// some text", &markers);
    assert_eq!(p.prefix, "    /// ");
    assert_eq!(p.content, "some text");
}

#[test]
fn test_detect_prefix_python() {
    let markers = comment_markers_for_extension("py");
    let p = detect_prefix("    # some text", &markers);
    assert_eq!(p.prefix, "    # ");
    assert_eq!(p.content, "some text");
}

#[test]
fn test_detect_prefix_plain_text() {
    let markers = comment_markers_for_extension("txt");
    let p = detect_prefix("    some text", &markers);
    assert_eq!(p.prefix, "    ");
    assert_eq!(p.content, "some text");
}

#[test]
fn test_find_paragraph() {
    let markers = comment_markers_for_extension("rs");
    let lines: Vec<String> = vec![
        "// first paragraph line one",
        "// first paragraph line two",
        "//",
        "// second paragraph line one",
        "// second paragraph line two",
    ]
    .into_iter()
    .map(String::from)
    .collect();

    assert_eq!(find_paragraph(&lines, 0, &markers), (0, 1));
    assert_eq!(find_paragraph(&lines, 1, &markers), (0, 1));
    assert_eq!(find_paragraph(&lines, 3, &markers), (3, 4));
    assert_eq!(find_paragraph(&lines, 4, &markers), (3, 4));
}

#[test]
fn test_rewrap_lines_basic() {
    let markers = comment_markers_for_extension("rs");
    let lines: Vec<String> = vec![
        "// This is a long line that should be wrapped because it exceeds the column limit for this test",
    ]
    .into_iter()
    .map(String::from)
    .collect();

    let result = rewrap_lines(&lines, &markers, 40, 4);
    for line in &result {
        assert!(line.starts_with("// "));
        assert!(line.len() <= 40, "Line too long: {:?} ({})", line, line.len());
    }
    assert!(result.len() > 1);
}

#[test]
fn test_rewrap_lines_join_short() {
    let markers = comment_markers_for_extension("rs");
    let lines: Vec<String> = vec!["// hello", "// world"]
        .into_iter()
        .map(String::from)
        .collect();

    let result = rewrap_lines(&lines, &markers, 80, 4);
    assert_eq!(result, vec!["// hello world"]);
}

#[test]
fn test_char_column_width_cjk() {
    assert_eq!(char_column_width('a', 4, 0), 1);
    assert_eq!(char_column_width('中', 4, 0), 2);
    assert_eq!(char_column_width('\t', 4, 0), 4);
    assert_eq!(char_column_width('\t', 4, 2), 2);
}
