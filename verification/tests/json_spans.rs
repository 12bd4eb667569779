use depsy_lsp::parsers::json_spans::{span_to_span, string_inner_to_span, LineIndex};

#[test]
fn line_index_empty_content() {
    let idx = LineIndex::new("");
    assert_eq!(idx.position(0), (0, 0));
}

#[test]
fn line_index_first_line() {
    let idx = LineIndex::new("hello\nworld");
    assert_eq!(idx.position(0), (0, 0));
    assert_eq!(idx.position(4), (0, 4));
}

#[test]
fn line_index_after_newline() {
    let idx = LineIndex::new("hello\nworld");
    assert_eq!(idx.position(6), (1, 0));
    assert_eq!(idx.position(10), (1, 4));
}

#[test]
fn line_index_three_lines() {
    let idx = LineIndex::new("a\nbb\nccc");
    assert_eq!(idx.position(0), (0, 0));
    assert_eq!(idx.position(2), (1, 0));
    assert_eq!(idx.position(5), (2, 0));
    assert_eq!(idx.position(7), (2, 2));
}

#[test]
fn line_index_offset_past_end_clamps_to_last_line() {
    let idx = LineIndex::new("ab");
    let (line, _col) = idx.position(99);
    assert_eq!(line, 0);
}

#[test]
fn line_index_multibyte_utf8_byte_columns() {
    // "é" is 2 bytes in UTF-8. Columns are byte offsets.
    let content = "ab\néd";
    let idx = LineIndex::new(content);
    assert_eq!(idx.position(3), (1, 0)); // 'é' start
    assert_eq!(idx.position(5), (1, 2)); // 'd' (after 2-byte 'é')
}

#[test]
fn span_to_span_single_line() {
    let idx = LineIndex::new("hello world");
    let s = span_to_span(&idx, 6, 11).unwrap();
    assert_eq!(s.line, 0);
    assert_eq!(s.line_start, 6);
    assert_eq!(s.line_end, 11);
}

#[test]
fn span_to_span_multi_line_returns_none() {
    let idx = LineIndex::new("hello\nworld");
    assert!(span_to_span(&idx, 4, 8).is_none());
}

#[test]
fn string_inner_to_span_strips_quotes() {
    // `"abc"` at bytes 0..5 — inner content `abc` is bytes 1..4.
    let idx = LineIndex::new(r#""abc""#);
    let s = string_inner_to_span(&idx, 0, 5).unwrap();
    assert_eq!(s.line, 0);
    assert_eq!(s.line_start, 1);
    assert_eq!(s.line_end, 4);
}

#[test]
fn string_inner_to_span_empty_string() {
    // `""` at bytes 0..2 — inner is the empty range 1..1.
    let idx = LineIndex::new(r#""""#);
    let s = string_inner_to_span(&idx, 0, 2).unwrap();
    assert_eq!(s.line, 0);
    assert_eq!(s.line_start, 1);
    assert_eq!(s.line_end, 1);
}

#[test]
fn string_inner_to_span_rejects_undersized_span() {
    // A span shorter than the two quotes is not a valid JSON string span.
    let idx = LineIndex::new("");
    assert!(string_inner_to_span(&idx, 0, 0).is_none());
    assert!(string_inner_to_span(&idx, 0, 1).is_none());
}

#[test]
fn string_content_span_stays_on_its_line() {
    let content = "{\n  \"xy\": 1\n}";
    let index = depsy_lsp::parsers::json_spans::LineIndex::new(content);
    let span = depsy_lsp::parsers::json_spans::string_inner_span(&index, 4, 8).unwrap();
    assert_eq!((span.line, span.line_start, span.line_end), (1, 3, 5));
    assert!(depsy_lsp::parsers::json_spans::string_inner_span(&index, 0, 1).is_none());
}
