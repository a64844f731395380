use ratatui::style::{Color, Style};
use textarea_render::highlight::{replace_tabs, Boundary, LineHighlighter, Span};

fn bytes(s: &str) -> Vec<u8> {
    s.as_bytes().to_vec()
}

fn flat(spans: &[Span]) -> Vec<(Vec<u8>, Style)> {
    spans.iter().map(|s| (s.content.clone(), s.style)).collect()
}

#[test]
fn tab_expanded_line_without_highlights() {
    let x = Style::default().fg(Color::Blue);
    let hl = LineHighlighter::new(bytes("a\tb"), x, 4);
    let spans = hl.into_spans();
    assert_eq!(flat(&spans), vec![(bytes("a    b"), Style::default())]);
}

#[test]
fn cursor_splits_line_into_three_spans() {
    let x = Style::default().fg(Color::Blue);
    let y = Style::default().fg(Color::Yellow);
    let mut hl = LineHighlighter::new(bytes("hello"), x, 4);
    hl.cursor_line(2, y);
    let spans = hl.into_spans();
    assert_eq!(
        flat(&spans),
        vec![(bytes("he"), y), (bytes("l"), x), (bytes("lo"), y)]
    );
}

#[test]
fn cursor_past_end_appends_space_span() {
    let x = Style::default().fg(Color::Blue);
    let y = Style::default().fg(Color::Yellow);
    let mut hl = LineHighlighter::new(bytes("hi"), x, 4);
    hl.cursor_line(2, y);
    let spans = hl.into_spans();
    assert_eq!(flat(&spans), vec![(bytes("hi"), y), (bytes(" "), x)]);
}

#[test]
fn cursor_on_multibyte_character() {
    let x = Style::default().fg(Color::Blue);
    let y = Style::default().fg(Color::Yellow);
    let mut hl = LineHighlighter::new(bytes("h\u{e9}llo"), x, 4);
    hl.cursor_line(1, y);
    let spans = hl.into_spans();
    assert_eq!(
        flat(&spans),
        vec![
            (bytes("h"), y),
            (bytes("\u{e9}"), x),
            (bytes("llo"), y)
        ]
    );
}

#[test]
fn cursor_wins_over_search_overlap() {
    let x = Style::default().fg(Color::Blue);
    let y = Style::default().fg(Color::Yellow);
    let s = Style::default().bg(Color::Green);
    let mut hl = LineHighlighter::new(bytes("abcdef"), x, 4);
    hl.cursor_line(2, y);
    hl.search(vec![(0, 6)], s);
    let spans = hl.into_spans();
    assert_eq!(
        flat(&spans),
        vec![(bytes("ab"), s), (bytes("c"), x), (bytes("def"), s)]
    );
}

#[test]
fn search_marks_each_match() {
    let y = Style::default().fg(Color::Yellow);
    let s = Style::default().bg(Color::Green);
    let x = Style::default().fg(Color::Blue);
    let mut hl = LineHighlighter::new(bytes("foo bar foo"), x, 4);
    hl.cursor_line(100, y);
    hl.search(vec![(0, 3), (8, 11)], s);
    let spans = hl.into_spans();
    assert_eq!(
        flat(&spans),
        vec![
            (bytes("foo"), s),
            (bytes(" bar "), y),
            (bytes("foo"), s),
            (bytes(" "), x)
        ]
    );
}

#[test]
fn zero_width_search_match_is_dropped() {
    let x = Style::default().fg(Color::Blue);
    let s = Style::default().bg(Color::Green);
    let mut hl = LineHighlighter::new(bytes("abc"), x, 4);
    hl.search(vec![(2, 2)], s);
    let spans = hl.into_spans();
    assert_eq!(flat(&spans), vec![(bytes("abc"), Style::default())]);
}

#[test]
fn line_number_prefix_is_padded() {
    let x = Style::default().fg(Color::Blue);
    let n = Style::default().fg(Color::Gray);
    let mut hl = LineHighlighter::new(bytes("text"), x, 4);
    hl.line_number(11, 3, n);
    let spans = hl.into_spans();
    assert_eq!(
        flat(&spans),
        vec![(bytes(" 12 "), n), (bytes("text"), Style::default())]
    );
}

#[test]
fn pushed_spans_come_first() {
    let x = Style::default().fg(Color::Blue);
    let p = Style::default().fg(Color::Red);
    let mut hl = LineHighlighter::new(bytes("tail"), x, 4);
    hl.push_spans(vec![Span {
        content: bytes(">> "),
        style: p,
    }]);
    let spans = hl.into_spans();
    assert_eq!(
        flat(&spans),
        vec![(bytes(">> "), p), (bytes("tail"), Style::default())]
    );
}

#[test]
fn replace_tabs_keeps_tab_free_slice() {
    let line = bytes("no tabs here");
    let out = replace_tabs(&line, 0, line.len(), 4);
    assert_eq!(out, line);
}

#[test]
fn replace_tabs_expands_one_tab_to_four_spaces() {
    let line = bytes("\t");
    let out = replace_tabs(&line, 0, 1, 4);
    assert_eq!(out, bytes("    "));
}

#[test]
fn replace_tabs_respects_tab_width() {
    let line = bytes("a\tb\tc");
    let out = replace_tabs(&line, 0, line.len(), 2);
    assert_eq!(out, bytes("a  b  c"));
}

#[test]
fn tab_inside_highlighted_region_is_expanded() {
    let x = Style::default().fg(Color::Blue);
    let s = Style::default().bg(Color::Green);
    let mut hl = LineHighlighter::new(bytes("a\tb"), x, 4);
    hl.search(vec![(0, 3)], s);
    let spans = hl.into_spans();
    assert_eq!(flat(&spans), vec![(bytes("a    b"), s)]);
}

#[test]
fn boundary_rank_order() {
    let st = Style::default();
    assert_eq!(
        Boundary::Cursor(st).cmp(&Boundary::Search(st)),
        std::cmp::Ordering::Greater
    );
    assert_eq!(
        Boundary::Search(st).cmp(&Boundary::End),
        std::cmp::Ordering::Greater
    );
    assert_eq!(
        Boundary::End.cmp(&Boundary::End),
        std::cmp::Ordering::Equal
    );
    assert_eq!(
        Boundary::End.cmp(&Boundary::Cursor(st)),
        std::cmp::Ordering::Less
    );
}

#[test]
fn boundary_style_carries_begin_styles_only() {
    let st = Style::default().fg(Color::Red);
    assert_eq!(Boundary::Cursor(st).style(), Some(st));
    assert_eq!(Boundary::Search(st).style(), Some(st));
    assert_eq!(Boundary::End.style(), None);
}

#[test]
fn empty_line_with_cursor() {
    let x = Style::default().fg(Color::Blue);
    let y = Style::default().fg(Color::Yellow);
    let mut hl = LineHighlighter::new(bytes(""), x, 4);
    hl.cursor_line(0, y);
    let spans = hl.into_spans();
    assert_eq!(flat(&spans), vec![(bytes(""), y), (bytes(" "), x)]);
}
