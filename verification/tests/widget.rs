use ratatui::style::{Color, Style};
use textarea_render::highlight::Span;
use textarea_render::widget::{next_scroll_top, Renderer, Viewport};

fn bytes(s: &str) -> Vec<u8> {
    s.as_bytes().to_vec()
}

fn row(text: &str, style: Style) -> Vec<Span> {
    vec![Span {
        content: bytes(text),
        style,
    }]
}

#[test]
fn scroll_forward_to_reveal_cursor() {
    assert_eq!(next_scroll_top(5, 20, 10), 11);
}

#[test]
fn scroll_unchanged_when_cursor_visible() {
    assert_eq!(next_scroll_top(5, 7, 10), 5);
}

#[test]
fn scroll_backward_to_cursor() {
    assert_eq!(next_scroll_top(5, 3, 10), 3);
}

#[test]
fn scroll_repeated_is_stable() {
    let once = next_scroll_top(5, 20, 10);
    assert_eq!(next_scroll_top(once, 20, 10), once);
}

#[test]
fn viewport_store_rect_round_trip() {
    let mut v = Viewport::default();
    v.store(1, 2, 3, 4);
    assert_eq!(v.rect(), (1, 2, 3, 4));
    v.store(65535, 0, 65535, 0);
    assert_eq!(v.rect(), (65535, 0, 65535, 0));
    v.store(65535, 65535, 65535, 65535);
    assert_eq!(v.rect(), (65535, 65535, 65535, 65535));
    v.store(0, 0, 0, 0);
    assert_eq!(v.rect(), (0, 0, 0, 0));
    v.store(12345, 54321, 4097, 259);
    assert_eq!(v.rect(), (12345, 54321, 4097, 259));
}

#[test]
fn viewport_scroll_top_reads_origin() {
    let mut v = Viewport::default();
    v.store(7, 9, 80, 24);
    assert_eq!(v.scroll_top(), (7, 9));
}

#[test]
fn viewport_position_computes_bottom_edges() {
    let mut v = Viewport::default();
    v.store(10, 20, 5, 7);
    assert_eq!(v.position(), (10, 20, 16, 24));
}

#[test]
fn viewport_position_degenerate_rectangle() {
    let mut v = Viewport::default();
    v.store(3, 4, 0, 0);
    assert_eq!(v.position(), (3, 4, 3, 4));
}

#[test]
fn viewport_scroll_saturates_at_origin() {
    let mut v = Viewport::default();
    v.store(5, 5, 2, 2);
    v.scroll(-10, 3);
    assert_eq!(v.rect(), (0, 8, 2, 2));
}

#[test]
fn viewport_scroll_saturates_at_top_end() {
    let mut v = Viewport::default();
    v.store(65530, 1, 2, 2);
    v.scroll(10, -1);
    assert_eq!(v.rect(), (65535, 0, 2, 2));
}

#[test]
fn viewport_clone_keeps_snapshot() {
    let mut v = Viewport::default();
    v.store(9, 8, 7, 6);
    let w = v.clone();
    assert_eq!(w.rect(), (9, 8, 7, 6));
}

#[test]
fn renderer_patches_cursor_span() {
    let base = Style::default().fg(Color::Red);
    let cstyle = Style::default().bg(Color::Blue);
    let lines = vec![row("hello", base), row("world", base)];
    let mut r = Renderer::new(lines, 0, 1, cstyle, None, Viewport::default());
    let (rows, top_row, top_col) = r.render(10, 2);
    assert_eq!((top_row, top_col), (0, 0));
    assert_eq!(rows.len(), 2);
    // exactly the cursor character is restyled, split at its byte range
    let row0: Vec<(Vec<u8>, Style)> = rows[0]
        .iter()
        .map(|s| (s.content.clone(), s.style))
        .collect();
    assert_eq!(
        row0,
        vec![
            (bytes("h"), base),
            (bytes("e"), base.patch(cstyle)),
            (bytes("llo"), base)
        ]
    );
    assert_ne!(base.patch(cstyle), base);
    assert_eq!(rows[1].len(), 1);
    assert_eq!(rows[1][0].style, base);
}

#[test]
fn renderer_prefixes_line_numbers_and_scrolls() {
    let base = Style::default();
    let nstyle = Style::default().fg(Color::Gray);
    let cstyle = Style::default().bg(Color::Blue);
    let lines = vec![row("a", base), row("b", base), row("c", base)];
    let mut r = Renderer::new(lines, 2, 0, cstyle, Some(nstyle), Viewport::default());
    let (rows, top_row, top_col) = r.render(10, 2);
    assert_eq!((top_row, top_col), (1, 0));
    assert_eq!(rows.len(), 2);
    assert_eq!(rows[0][0].content, bytes("2 "));
    assert_eq!(rows[0][0].style, nstyle);
    assert_eq!(rows[0][1].content, bytes("b"));
    // the prefix keeps its style; the cursor character after it is restyled
    assert_eq!(rows[1][0].content, bytes("3 "));
    assert_eq!(rows[1][0].style, nstyle);
    assert_eq!(rows[1][1].content, bytes("c"));
    assert_eq!(rows[1][1].style, base.patch(cstyle));
    assert_eq!(r.viewport.rect(), (1, 0, 10, 2));
}

#[test]
fn renderer_cursor_past_end_appends_space() {
    let base = Style::default().fg(Color::Red);
    let cstyle = Style::default().bg(Color::Blue);
    let lines = vec![row("ab", base)];
    let mut r = Renderer::new(lines, 0, 5, cstyle, None, Viewport::default());
    let (rows, _, _) = r.render(10, 1);
    let row0: Vec<(Vec<u8>, Style)> = rows[0]
        .iter()
        .map(|s| (s.content.clone(), s.style))
        .collect();
    assert_eq!(row0, vec![(bytes("ab"), base), (bytes(" "), cstyle)]);
}

#[test]
fn renderer_zero_height_yields_empty_block() {
    let base = Style::default();
    let cstyle = Style::default().bg(Color::Blue);
    let lines = vec![row("x", base)];
    let mut r = Renderer::new(lines, 0, 0, cstyle, None, Viewport::default());
    let (rows, top_row, top_col) = r.render(4, 0);
    assert!(rows.is_empty());
    assert_eq!((top_row, top_col), (1, 0));
    assert_eq!(r.viewport.rect(), (1, 0, 4, 0));
}

#[test]
fn renderer_stores_realized_geometry() {
    let base = Style::default();
    let cstyle = Style::default().bg(Color::Blue);
    let lines = vec![row("only", base)];
    let mut r = Renderer::new(lines, 0, 0, cstyle, None, Viewport::default());
    let _ = r.render(33, 9);
    assert_eq!(r.viewport.rect(), (0, 0, 33, 9));
}
