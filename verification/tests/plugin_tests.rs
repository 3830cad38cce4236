use fresh_core::plugin_api::BufferId;
use fresh_core::plugin_api::BufferInfo;
use fresh_core::plugin_api::CursorInfo;
use fresh_core::plugin_api::EditorStateSnapshot;
use fresh_core::plugin_api::PluginApi;
use fresh_core::plugin_api::PluginCommand;
use fresh_core::plugin_api::ViewportInfo;

#[test]
fn test_plugin_api_creation() {
    let api = PluginApi::new(EditorStateSnapshot::new());
    assert_eq!(api.get_active_buffer_id(), BufferId(0));
    assert!(api.get_primary_cursor().is_none());
    assert!(api.get_viewport().is_none());
}

#[test]
fn test_send_command() {
    let mut api = PluginApi::new(EditorStateSnapshot::new());

    let result = api.insert_text(BufferId(1), 0, "test".to_string());
    assert!(result.is_ok());

    let received = api.take_pending();
    assert_eq!(received.len(), 1);
    match &received[0] {
        PluginCommand::InsertText { buffer_id, position, text } => {
            assert_eq!(buffer_id.0, 1);
            assert_eq!(*position, 0);
            assert_eq!(text, "test");
        }
        _ => panic!("Wrong command type"),
    }
    assert!(api.take_pending().is_empty());
}

#[test]
fn test_add_overlay_command() {
    let mut api = PluginApi::new(EditorStateSnapshot::new());

    let result = api.add_overlay(
        BufferId(1),
        "test-overlay".to_string(),
        0..10,
        (255, 0, 0),
        true,
    );
    assert!(result.is_ok());

    let received = api.take_pending();
    match &received[0] {
        PluginCommand::AddOverlay { buffer_id, overlay_id, range, color, underline } => {
            assert_eq!(buffer_id.0, 1);
            assert_eq!(overlay_id, "test-overlay");
            assert_eq!(*range, 0..10);
            assert_eq!(*color, (255, 0, 0));
            assert!(underline);
        }
        _ => panic!("Wrong command type"),
    }
}

#[test]
fn test_set_status_command() {
    let mut api = PluginApi::new(EditorStateSnapshot::new());

    let result = api.set_status("Test status".to_string());
    assert!(result.is_ok());

    let received = api.take_pending();
    match &received[0] {
        PluginCommand::SetStatus { message } => {
            assert_eq!(message, "Test status");
        }
        _ => panic!("Wrong command type"),
    }
}

#[test]
fn test_get_active_buffer_id() {
    let mut snapshot = EditorStateSnapshot::new();
    snapshot.active_buffer_id = BufferId(5);

    let api = PluginApi::new(snapshot);

    let active_id = api.get_active_buffer_id();
    assert_eq!(active_id.0, 5);
}

#[test]
fn test_get_buffer_info() {
    let mut snapshot = EditorStateSnapshot::new();
    snapshot.buffers.push(BufferInfo {
        id: BufferId(1),
        path: Some("/test/file.txt".to_string()),
        modified: true,
        length: 100,
    });

    let api = PluginApi::new(snapshot);

    let info = api.get_buffer_info(BufferId(1));
    assert!(info.is_some());
    let info = info.unwrap();
    assert_eq!(info.id.0, 1);
    assert_eq!(info.path.as_deref(), Some("/test/file.txt"));
    assert!(info.modified);
    assert_eq!(info.length, 100);

    let no_info = api.get_buffer_info(BufferId(999));
    assert!(no_info.is_none());
}

#[test]
fn test_get_buffer_content() {
    let mut snapshot = EditorStateSnapshot::new();
    snapshot
        .buffer_contents
        .push((BufferId(1), "Hello, World!\nLine 2\nLine 3".to_string()));

    let api = PluginApi::new(snapshot);

    let content = api.get_buffer_content(BufferId(1));
    assert!(content.is_some());
    assert_eq!(content.unwrap(), "Hello, World!\nLine 2\nLine 3");

    let no_content = api.get_buffer_content(BufferId(999));
    assert!(no_content.is_none());
}

#[test]
fn test_get_line() {
    let mut snapshot = EditorStateSnapshot::new();
    snapshot
        .buffer_contents
        .push((BufferId(1), "Line 1\nLine 2\nLine 3".to_string()));

    let api = PluginApi::new(snapshot);

    assert_eq!(api.get_line(BufferId(1), 1).unwrap(), "Line 1");
    assert_eq!(api.get_line(BufferId(1), 2).unwrap(), "Line 2");
    assert_eq!(api.get_line(BufferId(1), 3).unwrap(), "Line 3");

    assert!(api.get_line(BufferId(1), 0).is_none());

    assert!(api.get_line(BufferId(1), 10).is_none());

    assert!(api.get_line(BufferId(999), 1).is_none());
}

#[test]
fn test_list_buffers() {
    let mut snapshot = EditorStateSnapshot::new();
    snapshot.buffers.push(BufferInfo {
        id: BufferId(1),
        path: Some("/file1.txt".to_string()),
        modified: false,
        length: 50,
    });
    snapshot.buffers.push(BufferInfo {
        id: BufferId(2),
        path: Some("/file2.txt".to_string()),
        modified: true,
        length: 100,
    });
    snapshot.buffers.push(BufferInfo { id: BufferId(3), path: None, modified: false, length: 0 });

    let api = PluginApi::new(snapshot);

    let buffers = api.list_buffers();
    assert_eq!(buffers.len(), 3);

    assert!(buffers.iter().any(|b| b.id.0 == 1));
    assert!(buffers.iter().any(|b| b.id.0 == 2));
    assert!(buffers.iter().any(|b| b.id.0 == 3));
}

#[test]
fn test_get_primary_cursor() {
    let mut snapshot = EditorStateSnapshot::new();
    snapshot.primary_cursor = Some(CursorInfo { position: 42, selection: Some(10..42) });

    let api = PluginApi::new(snapshot);

    let cursor = api.get_primary_cursor();
    assert!(cursor.is_some());
    let cursor = cursor.unwrap();
    assert_eq!(cursor.position, 42);
    assert_eq!(cursor.selection, Some(10..42));
}

#[test]
fn test_get_all_cursors() {
    let mut snapshot = EditorStateSnapshot::new();
    snapshot.all_cursors = vec![
        CursorInfo { position: 10, selection: None },
        CursorInfo { position: 20, selection: Some(15..20) },
        CursorInfo { position: 30, selection: Some(25..30) },
    ];

    let api = PluginApi::new(snapshot);

    let cursors = api.get_all_cursors();
    assert_eq!(cursors.len(), 3);
    assert_eq!(cursors[0].position, 10);
    assert_eq!(cursors[0].selection, None);
    assert_eq!(cursors[1].position, 20);
    assert_eq!(cursors[1].selection, Some(15..20));
    assert_eq!(cursors[2].position, 30);
    assert_eq!(cursors[2].selection, Some(25..30));
}

#[test]
fn test_get_viewport() {
    let mut snapshot = EditorStateSnapshot::new();
    snapshot.viewport = Some(ViewportInfo { top_byte: 100, left_column: 5, width: 80, height: 24 });

    let api = PluginApi::new(snapshot);

    let viewport = api.get_viewport();
    assert!(viewport.is_some());
    let viewport = viewport.unwrap();
    assert_eq!(viewport.top_byte, 100);
    assert_eq!(viewport.left_column, 5);
    assert_eq!(viewport.width, 80);
    assert_eq!(viewport.height, 24);
}

#[test]
fn get_line_handles_empty_and_crlf_lines() {
    let mut snapshot = EditorStateSnapshot::new();
    snapshot
        .buffer_contents
        .push((BufferId(1), "a\r\n\nlast".to_string()));
    let api = PluginApi::new(snapshot);
    assert_eq!(api.get_line(BufferId(1), 1).unwrap(), "a");
    assert_eq!(api.get_line(BufferId(1), 2).unwrap(), "");
    assert_eq!(api.get_line(BufferId(1), 3).unwrap(), "last");
    assert!(api.get_line(BufferId(1), 4).is_none());
}

#[test]
fn snapshot_updates_replace_queries() {
    let mut api = PluginApi::new(EditorStateSnapshot::new());
    let mut snapshot = EditorStateSnapshot::new();
    snapshot.active_buffer_id = BufferId(9);
    api.update_snapshot(snapshot);
    assert_eq!(api.get_active_buffer_id(), BufferId(9));
}

#[test]
fn queued_commands_drain_in_order() {
    let mut api = PluginApi::new(EditorStateSnapshot::new());
    api.delete_range(BufferId(2), 3..9).unwrap();
    api.remove_overlay(BufferId(2), "warn".to_string()).unwrap();
    let cmds = api.take_pending();
    assert_eq!(cmds.len(), 2);
    assert!(matches!(cmds[0], PluginCommand::DeleteRange { .. }));
    assert!(matches!(cmds[1], PluginCommand::RemoveOverlay { .. }));
}
