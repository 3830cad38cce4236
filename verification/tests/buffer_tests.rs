use fresh_core::buffer::Buffer;

#[test]
fn test_buffer_new() {
    let buffer = Buffer::new();
    assert_eq!(buffer.len(), 0);
    assert!(buffer.is_empty());
}

#[test]
fn test_buffer_from_str() {
    let mut buffer = Buffer::from_str("hello\nworld");
    assert_eq!(buffer.len(), 11);
    assert_eq!(buffer.line_count(), 2);
    assert_eq!(buffer.lines_in_range(0, 2), vec!["hello", "world"]);
}

#[test]
fn test_buffer_insert() {
    let mut buffer = Buffer::from_str("hello");
    buffer.insert(5, " world");
    assert_eq!(buffer.to_string(), "hello world");
    assert!(buffer.is_modified());
}

#[test]
fn test_buffer_delete() {
    let mut buffer = Buffer::from_str("hello world");
    buffer.delete(5..11);
    assert_eq!(buffer.to_string(), "hello");
    assert!(buffer.is_modified());
}

#[test]
fn test_line_to_byte() {
    let mut buffer = Buffer::from_str("line0\nline1\nline2");
    assert_eq!(buffer.line_to_byte(0), 0);
    assert_eq!(buffer.line_to_byte(1), 6);
    assert_eq!(buffer.line_to_byte(2), 12);
}

#[test]
fn test_byte_to_line() {
    let buffer = Buffer::from_str("line0\nline1\nline2");
    assert_eq!(buffer.byte_to_line_lazy(0).value(), 0);
    assert_eq!(buffer.byte_to_line_lazy(5).value(), 0);
    assert_eq!(buffer.byte_to_line_lazy(6).value(), 1);
    assert_eq!(buffer.byte_to_line_lazy(12).value(), 2);
}

#[test]
fn test_line_cache_invalidation() {
    let mut buffer = Buffer::from_str("line1\nline2");
    assert_eq!(buffer.line_count(), 2);

    buffer.insert(6, "inserted\n");
    assert_eq!(buffer.line_count(), 3);
    assert_eq!(buffer.lines_in_range(1, 1), vec!["inserted"]);
}

#[test]
fn test_char_boundaries() {
    let buffer = Buffer::from_str("hello");
    assert_eq!(buffer.prev_char_boundary(5), 4);
    assert_eq!(buffer.next_char_boundary(0), 1);
}

#[test]
fn test_word_boundaries() {
    let buffer = Buffer::from_str("hello world foo");
    assert_eq!(buffer.next_word_boundary(0), 6);
    assert_eq!(buffer.next_word_boundary(6), 12);
    assert_eq!(buffer.prev_word_boundary(11), 6);
    assert_eq!(buffer.prev_word_boundary(5), 0);
}

#[test]
fn insert_then_delete_restores_content() {
    let mut buffer = Buffer::from_str("the quick brown fox");
    let original = buffer.to_string();
    buffer.insert(4, "extremely ");
    assert_eq!(buffer.len(), original.len() + "extremely ".len());
    buffer.delete(4..4 + "extremely ".len());
    assert_eq!(buffer.to_string(), original);
}

#[test]
fn line_byte_roundtrip_on_scanned_buffer() {
    let mut buffer = Buffer::from_str("a\nbb\nccc\n\ndddd");
    let count = buffer.line_count();
    assert_eq!(count, 5);
    for line in 0..count {
        let byte = buffer.line_to_byte(line);
        assert_eq!(buffer.byte_to_line(byte), line);
    }
}

#[test]
fn delete_never_increases_line_count() {
    let mut buffer = Buffer::from_str("one\ntwo\nthree\nfour");
    let before = buffer.line_count();
    buffer.delete(2..9);
    assert!(buffer.line_count() <= before);

    let mut buffer2 = Buffer::from_str("one\ntwo");
    let before2 = buffer2.line_count();
    buffer2.delete(1..2);
    assert!(buffer2.line_count() <= before2);
}

#[test]
fn content_survives_text_roundtrip() {
    let mut buffer = Buffer::from_str("saved\ncontent\u{00e9}");
    let text = buffer.to_string();
    let reloaded = Buffer::from_str(&text);
    assert_eq!(reloaded.to_string(), buffer.to_string());
    assert_eq!(reloaded.len(), buffer.len());
}

#[test]
fn lossy_decoding_replaces_invalid_bytes() {
    let buffer = Buffer::from_bytes_scanned(vec![0x61, 0xFF, 0x62]);
    assert_eq!(buffer.to_string(), "a\u{FFFD}b");
}

#[test]
fn lazy_line_numbers_are_estimates_until_scanned() {
    let mut text = String::new();
    for i in 0..100 {
        text.push_str(&format!("line number {}\n", i));
    }
    let mut buffer = Buffer::from_bytes(text.clone().into_bytes());
    assert_eq!(buffer.line_cache_scanned_up_to(), 0);
    assert!(buffer.byte_to_line_lazy(500).is_relative());
    assert_eq!(buffer.approximate_line_count(), None);

    let total = buffer.line_count();
    assert_eq!(total, 101);
    assert!(buffer.byte_to_line_lazy(500).is_absolute());
}

#[test]
fn display_line_number_formats_one_indexed() {
    let buffer = Buffer::from_str("a\nb\nc");
    let n = buffer.display_line_number(2);
    assert!(n.is_absolute());
    assert_eq!(n.value(), 1);
    assert_eq!(n.format(), "2");
}

#[test]
fn relative_line_number_formats_with_tilde() {
    let mut text = String::new();
    for _ in 0..50 {
        text.push_str("0123456789\n");
    }
    let buffer = Buffer::from_bytes(text.into_bytes());
    let n = buffer.display_line_number(200);
    assert!(n.is_relative());
    assert!(n.format().starts_with('~'));
}

#[test]
fn find_line_boundaries_at_bytes() {
    let buffer = Buffer::from_str("ab\ncd\nef");
    assert_eq!(buffer.find_line_start_at_byte(4), 3);
    assert_eq!(buffer.find_line_end_at_byte(4), 5);
    assert_eq!(buffer.find_prev_line_start_from_byte(4), Some(0));
    assert_eq!(buffer.find_next_line_start_from_byte(4), Some(6));
    assert_eq!(buffer.find_prev_line_start_from_byte(0), None);
    assert_eq!(buffer.find_next_line_start_from_byte(7), None);
}

#[test]
fn line_end_bytes() {
    let mut buffer = Buffer::from_str("ab\ncd");
    assert_eq!(buffer.line_end_byte(0), 2);
    assert_eq!(buffer.line_end_byte_with_newline(0), 3);
    assert_eq!(buffer.line_end_byte(1), 5);
    assert!(!buffer.is_last_line(0));
    assert!(buffer.is_last_line(1));
}

#[test]
fn find_next_wraps_around() {
    let buffer = Buffer::from_str("abcabcabc");
    assert_eq!(buffer.find_next("abc", 0), Some(0));
    assert_eq!(buffer.find_next("abc", 1), Some(3));
    assert_eq!(buffer.find_next("abc", 7), Some(0));
    assert_eq!(buffer.find_next("xyz", 0), None);
    assert_eq!(buffer.find_next("", 0), None);
}

#[test]
fn slice_clamps_ranges() {
    let buffer = Buffer::from_str("hello");
    assert_eq!(buffer.slice(1..3), "el");
    assert_eq!(buffer.slice(3..100), "lo");
    assert_eq!(buffer.slice(10..20), "");
    assert_eq!(buffer.slice_bytes(0..2), vec![b'h', b'e']);
}

#[test]
fn line_iterator_walks_lines_both_ways() {
    let buffer = Buffer::from_str("aa\nbb\ncc");
    let mut it = buffer.line_iterator(0);
    assert_eq!(it.next(), Some((0, "aa".to_string())));
    assert_eq!(it.next(), Some((3, "bb".to_string())));
    assert_eq!(it.next(), Some((6, "cc".to_string())));
    assert_eq!(it.next(), None);
    assert_eq!(it.current_position(), 8);

    let mut back = buffer.line_iterator(6);
    assert_eq!(back.prev(), Some((3, "bb".to_string())));
    assert_eq!(back.prev(), Some((0, "aa".to_string())));
    assert_eq!(back.prev(), None);
}

#[test]
fn line_content_at_bytes() {
    let buffer = Buffer::from_str("aa\nbb\ncc");
    assert_eq!(buffer.line_content_at_byte(4), "bb");
    assert_eq!(buffer.line_content_at_byte(100), "");
}

#[test]
fn register_line_extends_cache() {
    let text = "0123\n5678\nabcd\n";
    let buffer = Buffer::from_bytes(text.as_bytes().to_vec());
    assert_eq!(buffer.line_cache_scanned_up_to(), 0);
    let mut buffer = buffer;
    buffer.register_line_in_cache(5);
    assert!(buffer.line_cache_scanned_up_to() > 0);
    assert!(buffer.line_cache_count() >= 2);
}

#[test]
fn count_newlines_in_ranges() {
    let buffer = Buffer::from_str("a\nb\nc\n");
    assert_eq!(buffer.count_newlines_in_range(0, 6), 3);
    assert_eq!(buffer.count_newlines_in_range(0, 2), 1);
    assert_eq!(buffer.count_newlines_in_range(4, 2), 0);
}

#[test]
fn file_path_and_modified_flag() {
    let mut buffer = Buffer::from_str("x");
    assert!(buffer.file_path().is_none());
    buffer.set_file_path("notes.txt".to_string());
    assert_eq!(buffer.file_path().map(|p| p.as_str()), Some("notes.txt"));
    buffer.insert(0, "y");
    assert!(buffer.is_modified());
    buffer.clear_modified();
    assert!(!buffer.is_modified());
}

#[test]
fn empty_insert_changes_nothing() {
    let mut buffer = Buffer::from_str("keep");
    buffer.insert(2, "");
    assert_eq!(buffer.to_string(), "keep");
    assert!(!buffer.is_modified());
}
