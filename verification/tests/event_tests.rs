use fresh_core::event::CursorId;
use fresh_core::event::Event;
use fresh_core::event::EventLog;
use fresh_core::event::LogEntry;

#[test]
fn test_event_log_append() {
    let mut log = EventLog::new();
    let event = Event::Insert {
        position: 0,
        text: "hello".to_string(),
        cursor_id: CursorId(0),
    };

    let index = log.append(event);
    assert_eq!(index, 0);
    assert_eq!(log.current_index(), 1);
    assert_eq!(log.entries().len(), 1);
}

#[test]
fn test_undo_redo() {
    let mut log = EventLog::new();

    log.append(Event::Insert {
        position: 0,
        text: "a".to_string(),
        cursor_id: CursorId(0),
    });

    log.append(Event::Insert {
        position: 1,
        text: "b".to_string(),
        cursor_id: CursorId(0),
    });

    assert_eq!(log.current_index(), 2);
    assert!(log.can_undo());
    assert!(!log.can_redo());

    log.undo();
    assert_eq!(log.current_index(), 1);
    assert!(log.can_undo());
    assert!(log.can_redo());

    log.undo();
    assert_eq!(log.current_index(), 0);
    assert!(!log.can_undo());
    assert!(log.can_redo());

    log.redo();
    assert_eq!(log.current_index(), 1);
}

#[test]
fn test_event_inverse() {
    let insert = Event::Insert {
        position: 5,
        text: "hello".to_string(),
        cursor_id: CursorId(0),
    };

    let inverse = insert.inverse().unwrap();
    match inverse {
        Event::Delete { range, deleted_text, .. } => {
            assert_eq!(range, 5..10);
            assert_eq!(deleted_text, "hello");
        }
        _ => panic!("Expected Delete event"),
    }
}

#[test]
fn test_truncate_on_new_event_after_undo() {
    let mut log = EventLog::new();

    log.append(Event::Insert {
        position: 0,
        text: "a".to_string(),
        cursor_id: CursorId(0),
    });

    log.append(Event::Insert {
        position: 1,
        text: "b".to_string(),
        cursor_id: CursorId(0),
    });

    log.undo();
    assert_eq!(log.entries().len(), 2);

    log.append(Event::Insert {
        position: 1,
        text: "c".to_string(),
        cursor_id: CursorId(0),
    });

    assert_eq!(log.entries().len(), 2);
    assert_eq!(log.current_index(), 2);
}

#[test]
fn undo_drops_index_then_append_truncates_future() {
    let mut log = EventLog::new();
    log.append(Event::Insert {
        position: 0,
        text: "x".to_string(),
        cursor_id: CursorId(1),
    });
    log.append(Event::Insert {
        position: 1,
        text: "y".to_string(),
        cursor_id: CursorId(1),
    });
    assert_eq!(log.current_index(), 2);
    log.undo();
    assert_eq!(log.current_index(), 1);
    log.append(Event::Insert {
        position: 1,
        text: "z".to_string(),
        cursor_id: CursorId(1),
    });
    assert_eq!(log.entries().len(), 2);
    match &log.entries()[1].event {
        Event::Insert { text, .. } => assert_eq!(text, "z"),
        _ => panic!("expected an insert entry"),
    }
}

#[test]
fn delete_inverse_is_the_original_insert() {
    let delete = Event::Delete {
        range: 3..7,
        deleted_text: "word".to_string(),
        cursor_id: CursorId(2),
    };
    match delete.inverse().unwrap() {
        Event::Insert { position, text, cursor_id } => {
            assert_eq!(position, 3);
            assert_eq!(text, "word");
            assert_eq!(cursor_id, CursorId(2));
        }
        _ => panic!("expected an insert"),
    }
}

#[test]
fn navigation_events_have_no_inverse() {
    let mv = Event::MoveCursor { cursor_id: CursorId(0), position: 4, anchor: None };
    assert!(mv.inverse().is_none());
    assert!(!mv.modifies_buffer());
    assert_eq!(mv.cursor_id(), Some(CursorId(0)));

    let scroll = Event::Scroll { line_offset: -2 };
    assert!(scroll.inverse().is_none());
    assert_eq!(scroll.cursor_id(), None);
}

#[test]
fn only_content_events_modify_the_buffer() {
    let ins = Event::Insert { position: 0, text: "a".to_string(), cursor_id: CursorId(0) };
    let del = Event::Delete { range: 0..1, deleted_text: "a".to_string(), cursor_id: CursorId(0) };
    let mode = Event::ChangeMode { mode: "insert".to_string() };
    assert!(ins.modifies_buffer());
    assert!(del.modifies_buffer());
    assert!(!mode.modifies_buffer());
}

#[test]
fn log_range_and_last_event() {
    let mut log = EventLog::new();
    log.append(Event::SetViewport { top_line: 1 });
    log.append(Event::SetViewport { top_line: 2 });
    log.append(Event::SetViewport { top_line: 3 });

    let slice = log.range(1..3);
    assert_eq!(slice.len(), 2);
    match &slice[0].event {
        Event::SetViewport { top_line } => assert_eq!(*top_line, 2),
        _ => panic!("expected a viewport entry"),
    }
    match log.last_event() {
        Some(Event::SetViewport { top_line }) => assert_eq!(top_line, 3),
        _ => panic!("expected a viewport entry"),
    }
    log.clear();
    assert_eq!(log.entries().len(), 0);
    assert_eq!(log.current_index(), 0);
    assert!(log.last_event().is_none());
}

#[test]
fn replayed_log_is_positioned_at_the_end() {
    let entries = vec![
        LogEntry::new(Event::SetViewport { top_line: 0 }),
        LogEntry::new(Event::ChangeMode { mode: "normal".to_string() }),
    ];
    let log = EventLog::from_entries(entries);
    assert_eq!(log.current_index(), 2);
    assert!(log.can_undo());
    assert!(!log.can_redo());
}

#[test]
fn entry_descriptions_attach() {
    let entry = LogEntry::new(Event::SetViewport { top_line: 0 });
    assert!(entry.description.is_none());
    let described = entry.with_description("jump".to_string());
    assert_eq!(described.description.as_deref(), Some("jump"));
}
