use fresh_core::buffer::Buffer;
use fresh_core::cursor::Cursor;
use fresh_core::viewport::Viewport;

#[test]
fn test_viewport_new() {
    let vp = Viewport::new(80, 24);
    assert_eq!(vp.width, 80);
    assert_eq!(vp.height, 24);
    assert_eq!(vp.top_line, 0);
}

#[test]
fn test_visible_range() {
    let vp = Viewport::new(80, 24);
    assert_eq!(vp.visible_range(), 0..24);
}

#[test]
fn test_scroll_up_down() {
    let mut vp = Viewport::new(80, 24);
    vp.scroll_down(10, 100);
    assert_eq!(vp.top_line, 10);

    vp.scroll_up(5);
    assert_eq!(vp.top_line, 5);

    vp.scroll_up(10);
    assert_eq!(vp.top_line, 0);
}

#[test]
fn test_ensure_line_visible() {
    let mut vp = Viewport::new(80, 24);
    vp.scroll_offset = 3;

    vp.ensure_line_visible(2, 100);
    assert!(vp.top_line < 2);

    vp.ensure_line_visible(50, 100);
    assert!(vp.top_line > 0);
    assert!(vp.is_line_visible(50));
}

#[test]
fn test_ensure_visible_with_cursor() {
    let mut buffer = Buffer::from_str("line1\nline2\nline3\nline4\nline5\nline6\nline7\nline8\nline9\nline10\nline11\nline12\nline13\nline14\nline15\nline16\nline17\nline18\nline19\nline20");
    let mut vp = Viewport::new(80, 10);

    let cursor_pos = buffer.line_to_byte(15);
    let cursor = Cursor::new(cursor_pos);
    vp.ensure_visible(&mut buffer, &cursor);

    let cursor_line = buffer.byte_to_line(cursor_pos);
    assert!(vp.is_line_visible(cursor_line));
}

#[test]
fn test_cursor_screen_position() {
    let mut buffer = Buffer::from_str("line1\nline2\nline3");
    let vp = Viewport::new(80, 24);

    let cursor = Cursor::new(6);
    let (row, col) = vp.cursor_screen_position(&mut buffer, &cursor);
    assert_eq!(row, 1);
    assert_eq!(col, 0);
}

#[test]
fn scroll_to_clamps_at_the_last_line() {
    let mut vp = Viewport::new(80, 24);
    vp.scroll_to(500, 100);
    assert_eq!(vp.top_line, 99);
    vp.scroll_to(5, 100);
    assert_eq!(vp.top_line, 5);
}

#[test]
fn screen_rows_map_to_lines_and_back() {
    let mut vp = Viewport::new(80, 10);
    vp.scroll_down(4, 100);
    assert_eq!(vp.screen_row_to_line(3), 7);
    assert_eq!(vp.line_to_screen_row(7), Some(3));
    assert_eq!(vp.line_to_screen_row(50), None);
}

#[test]
fn resize_and_offset_update() {
    let mut vp = Viewport::new(80, 24);
    vp.resize(100, 40);
    assert_eq!(vp.width, 100);
    assert_eq!(vp.height, 40);
    vp.set_scroll_offset(7);
    assert_eq!(vp.scroll_offset, 7);
}

#[test]
fn visible_content_pairs_lines_with_numbers() {
    let mut buffer = Buffer::from_str("a\nb\nc\nd");
    let mut vp = Viewport::new(80, 2);
    vp.scroll_down(1, 4);
    let content = vp.visible_content(&mut buffer);
    assert_eq!(content, vec![(1, "b".to_string()), (2, "c".to_string())]);
}

#[test]
fn cursors_all_fit_get_centered() {
    let mut text = String::new();
    for i in 0..40 {
        text.push_str(&format!("{}\n", i));
    }
    let mut buffer = Buffer::from_str(&text);
    let mut vp = Viewport::new(80, 10);
    let cursors = vec![
        (0, Cursor::new(buffer.line_to_byte(20))),
        (1, Cursor::new(buffer.line_to_byte(22))),
    ];
    vp.ensure_cursors_visible(&mut buffer, &cursors);
    assert!(vp.is_line_visible(20));
    assert!(vp.is_line_visible(22));
}
